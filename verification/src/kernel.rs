//! Kernels: calculations that are data.
//!
//! A kernel computes each of its output fields by a postfix program that reads the own row
//! and the delivery and nothing else. The programs run one instance at a time or over whole
//! columns, with the same results.
use crate::calculation::Input;
use crate::calculation::InputModel;
use crate::entity::FieldId;
use crate::entity::InstanceId;
use crate::entity::FIELD_ALIVE;
use crate::float64::saturate;
use crate::float64::F64;
use crate::predicate::compares;
use crate::predicate::lifted;
use crate::predicate::CmpOp;
use crate::value::vals_of;
use crate::value::Val;
use crate::value::Value;
use vstd::prelude::*;

verus! {

/// One instruction of a postfix program.
#[derive(Debug)]
pub enum KernelOp {
    Const(Value),
    ReadOwn(FieldId),
    InputArg(usize),
    FoldInput,
    BatchLen,
    Add,
    Sub,
    Mul,
    Div,
    Cmp(CmpOp),
    Not,
    And,
    Or,
    /// `cond then else Select`.
    Select,
}

/// One output: the field and the program that computes it.
#[derive(Debug)]
pub struct KernelWrite {
    pub field: FieldId,
    pub ops: Vec<KernelOp>,
}

impl KernelWrite {
    pub fn new(field: FieldId, ops: Vec<KernelOp>) -> (r: KernelWrite)
        ensures
            r == (KernelWrite { field, ops }),
    {
        KernelWrite { field, ops }
    }
}

/// The outputs of a kernel.
#[derive(Debug)]
pub struct KernelIr {
    pub writes: Vec<KernelWrite>,
}

/// The form of the delivery that a kernel is registered with.
#[derive(Clone, Copy, Debug, PartialEq, Eq, Structural)]
pub enum KernelInputShape {
    Each { arity: usize },
    Batch,
    Fold,
}

/// Why a kernel is refused.
#[derive(Clone, Copy, Debug, PartialEq, Eq, Structural)]
pub enum KernelError {
    /// A kernel cannot end an instance.
    WritesAlive,
    /// A field is computed twice.
    DuplicateOutput(FieldId),
    /// A field is computed that the calculation does not declare.
    UndeclaredWrite(FieldId),
    /// The delivery has fewer items.
    NoSuchArg { index: usize, arity: usize },
    /// Only an each delivery has items.
    ArgOutsideEach,
    /// Only a fold delivers an aggregate.
    FoldOutsideFold,
    /// Only a batch has a length.
    BatchLenOutsideBatch,
    /// A field is read that the calculation does not declare.
    UndeclaredRead(FieldId),
    /// The instruction at this place finds too few operands.
    StackUnderflow { at: usize },
    /// A program leaves another number of values than one.
    NotOneResult,
}

/// What a program reads.
pub ghost struct KernelEnv {
    pub row: spec_fn(FieldId) -> Val,
    pub input: InputModel,
    /// What the length of a batch reads where the delivery is none.
    pub no_batch: Val,
}

/// The top of the stack. An empty stack has null on top.
pub open spec fn top(s: Seq<Val>) -> Val {
    if s.len() == 0 {
        Val::Null
    } else {
        s.last()
    }
}

/// The stack without its top.
pub open spec fn rest(s: Seq<Val>) -> Seq<Val> {
    if s.len() == 0 {
        s
    } else {
        s.drop_last()
    }
}

pub open spec fn truth(v: Val) -> bool {
    v == Val::Bool(true)
}

/// The value that an instruction without operands pushes.
pub open spec fn source_value(op: KernelOp, env: KernelEnv) -> Val {
    match op {
        KernelOp::Const(v) => v@,
        KernelOp::ReadOwn(f) => (env.row)(f),
        KernelOp::InputArg(i) => match env.input {
            InputModel::Each(args) => if i < args.len() {
                args[i as int]
            } else {
                Val::Null
            },
            _ => Val::Null,
        },
        KernelOp::FoldInput => match env.input {
            InputModel::Fold(v) => v,
            _ => Val::Null,
        },
        KernelOp::BatchLen => match env.input {
            InputModel::Batch(rows) => Val::Int(saturate(rows.len() as int)),
            _ => env.no_batch,
        },
        _ => Val::Null,
    }
}

/// How many values an instruction takes from the stack.
pub open spec fn operands(op: KernelOp) -> nat {
    match op {
        KernelOp::Const(_) | KernelOp::ReadOwn(_) | KernelOp::InputArg(_) | KernelOp::FoldInput
        | KernelOp::BatchLen => 0,
        KernelOp::Not => 1,
        KernelOp::Select => 3,
        _ => 2,
    }
}

/// The result of an instruction on its operands.
pub open spec fn combine(op: KernelOp, a: Val, b: Val, c: Val) -> Val {
    match op {
        KernelOp::Add => lifted(b, c, |x: F64, y: F64| x.add_spec(y)),
        KernelOp::Sub => lifted(b, c, |x: F64, y: F64| x.sub_spec(y)),
        KernelOp::Mul => lifted(b, c, |x: F64, y: F64| x.mul_spec(y)),
        KernelOp::Div => lifted(b, c, |x: F64, y: F64| x.div_spec(y)),
        KernelOp::Cmp(op) => Val::Bool(compares(b, op, c)),
        KernelOp::Not => Val::Bool(!truth(c)),
        KernelOp::And => Val::Bool(truth(b) && truth(c)),
        KernelOp::Or => Val::Bool(truth(b) || truth(c)),
        KernelOp::Select => if truth(a) {
            b
        } else {
            c
        },
        _ => Val::Null,
    }
}

/// The stack after one instruction.
pub open spec fn step(op: KernelOp, s: Seq<Val>, env: KernelEnv) -> Seq<Val> {
    let n = operands(op);
    if n == 0 {
        s.push(source_value(op, env))
    } else {
        let c = top(s);
        let s1 = rest(s);
        if n == 1 {
            s1.push(combine(op, Val::Null, Val::Null, c))
        } else {
            let b = top(s1);
            let s2 = rest(s1);
            if n == 2 {
                s2.push(combine(op, Val::Null, b, c))
            } else {
                rest(s2).push(combine(op, top(s2), b, c))
            }
        }
    }
}

/// The stack after the first `n` instructions.
pub open spec fn stack_after(ops: Seq<KernelOp>, n: int, env: KernelEnv) -> Seq<Val>
    decreases n,
{
    if n <= 0 {
        Seq::empty()
    } else {
        step(ops[n - 1], stack_after(ops, n - 1, env), env)
    }
}

/// What a program computes.
pub open spec fn program_value(ops: Seq<KernelOp>, env: KernelEnv) -> Val {
    top(stack_after(ops, ops.len() as int, env))
}

/// Why an instruction is refused at stack depth `depth`, or nothing.
pub open spec fn op_error(
    op: KernelOp,
    at: int,
    depth: int,
    reads: Option<Seq<FieldId>>,
    shape: KernelInputShape,
) -> Option<KernelError> {
    match op {
        KernelOp::InputArg(i) => match shape {
            KernelInputShape::Each { arity } => if i < arity {
                None
            } else {
                Some(KernelError::NoSuchArg { index: i, arity })
            },
            _ => Some(KernelError::ArgOutsideEach),
        },
        KernelOp::FoldInput => if shape is Fold {
            None
        } else {
            Some(KernelError::FoldOutsideFold)
        },
        KernelOp::BatchLen => if shape is Batch {
            None
        } else {
            Some(KernelError::BatchLenOutsideBatch)
        },
        KernelOp::ReadOwn(f) => if reads is Some && !reads->0.contains(f) {
            Some(KernelError::UndeclaredRead(f))
        } else {
            None
        },
        _ => if depth < operands(op) {
            Some(KernelError::StackUnderflow { at: at as usize })
        } else {
            None
        },
    }
}

/// The stack depth after the first `n` instructions, or why one of them is refused.
pub open spec fn depth_after(
    ops: Seq<KernelOp>,
    n: int,
    reads: Option<Seq<FieldId>>,
    shape: KernelInputShape,
) -> Result<int, KernelError>
    decreases n,
{
    if n <= 0 {
        Ok(0)
    } else {
        match depth_after(ops, n - 1, reads, shape) {
            Err(e) => Err(e),
            Ok(d) => match op_error(ops[n - 1], n - 1, d, reads, shape) {
                Some(e) => Err(e),
                None => Ok(d - operands(ops[n - 1]) + 1),
            },
        }
    }
}

/// Whether a program is accepted.
pub open spec fn program_check(
    ops: Seq<KernelOp>,
    reads: Option<Seq<FieldId>>,
    shape: KernelInputShape,
) -> Result<(), KernelError> {
    match depth_after(ops, ops.len() as int, reads, shape) {
        Err(e) => Err(e),
        Ok(d) => if d == 1 {
            Ok(())
        } else {
            Err(KernelError::NotOneResult)
        },
    }
}

/// Whether the first `n` outputs are accepted.
pub open spec fn writes_check(
    writes: Seq<KernelWrite>,
    n: int,
    declared: Seq<FieldId>,
    reads: Option<Seq<FieldId>>,
    shape: KernelInputShape,
) -> Result<(), KernelError>
    decreases n,
{
    if n <= 0 {
        Ok(())
    } else {
        match writes_check(writes, n - 1, declared, reads, shape) {
            Err(e) => Err(e),
            Ok(_) => {
                let w = writes[n - 1];
                if w.field.0 == FIELD_ALIVE {
                    Err(KernelError::WritesAlive)
                } else if exists|i: int| 0 <= i < n - 1 && (#[trigger] writes[i]).field == w.field {
                    Err(KernelError::DuplicateOutput(w.field))
                } else if !declared.contains(w.field) {
                    Err(KernelError::UndeclaredWrite(w.field))
                } else {
                    program_check(w.ops@, reads, shape)
                }
            },
        }
    }
}

/// The reads of an optional list.
pub open spec fn reads_of(reads: Option<Vec<FieldId>>) -> Option<Seq<FieldId>> {
    match reads {
        Some(v) => Some(v@),
        None => None,
    }
}

/// Whether a list holds a field.
pub fn has_field(v: &Vec<FieldId>, f: FieldId) -> (r: bool)
    ensures
        r == v@.contains(f),
{
    let mut i: usize = 0;
    while i < v.len()
        invariant
            i <= v@.len(),
            forall|j: int| 0 <= j < i ==> v@[j] != f,
        decreases v@.len() - i,
    {
        if v[i] == f {
            assert(v@[i as int] == f);
            return true;
        }
        i = i + 1;
    }
    false
}

fn validate_op(
    op: &KernelOp,
    at: usize,
    depth: usize,
    reads: &Option<Vec<FieldId>>,
    shape: KernelInputShape,
) -> (r: Option<KernelError>)
    ensures
        r == op_error(*op, at as int, depth as int, reads_of(*reads), shape),
{
    match op {
        KernelOp::InputArg(i) => match shape {
            KernelInputShape::Each { arity } => if *i < arity {
                None
            } else {
                Some(KernelError::NoSuchArg { index: *i, arity })
            },
            _ => Some(KernelError::ArgOutsideEach),
        },
        KernelOp::FoldInput => if matches!(shape, KernelInputShape::Fold) {
            None
        } else {
            Some(KernelError::FoldOutsideFold)
        },
        KernelOp::BatchLen => if matches!(shape, KernelInputShape::Batch) {
            None
        } else {
            Some(KernelError::BatchLenOutsideBatch)
        },
        KernelOp::ReadOwn(f) => match reads {
            Some(v) => if has_field(v, *f) {
                None
            } else {
                Some(KernelError::UndeclaredRead(*f))
            },
            None => None,
        },
        _ => if depth < arity_of(op) {
            Some(KernelError::StackUnderflow { at })
        } else {
            None
        },
    }
}

pub(crate) fn arity_of(op: &KernelOp) -> (r: usize)
    ensures
        r == operands(*op),
{
    match op {
        KernelOp::Const(_) | KernelOp::ReadOwn(_) | KernelOp::InputArg(_) | KernelOp::FoldInput
        | KernelOp::BatchLen => 0,
        KernelOp::Not => 1,
        KernelOp::Select => 3,
        _ => 2,
    }
}

/// Checks a program: its operands are there, its reads are declared, it fits the delivery,
/// and it leaves one value.
pub fn validate_kernel_ops(
    ops: &Vec<KernelOp>,
    reads: &Option<Vec<FieldId>>,
    shape: KernelInputShape,
) -> (r: Result<(), KernelError>)
    ensures
        r == program_check(ops@, reads_of(*reads), shape),
{
    let mut depth: usize = 0;
    let mut i: usize = 0;
    while i < ops.len()
        invariant
            i <= ops@.len(),
            depth <= i,
            depth_after(ops@, i as int, reads_of(*reads), shape) == Ok::<int, KernelError>(
                depth as int,
            ),
        decreases ops@.len() - i,
    {
        let op = &ops[i];
        if let Some(e) = validate_op(op, i, depth, reads, shape) {
            proof {
                lemma_depth_error(ops@, i + 1, reads_of(*reads), shape, e);
            }
            return Err(e);
        }
        depth = depth - arity_of(op) + 1;
        i = i + 1;
    }
    if depth == 1 {
        Ok(())
    } else {
        Err(KernelError::NotOneResult)
    }
}

/// The first refusal is the answer.
proof fn lemma_depth_error(
    ops: Seq<KernelOp>,
    n: int,
    reads: Option<Seq<FieldId>>,
    shape: KernelInputShape,
    e: KernelError,
)
    requires
        0 <= n <= ops.len(),
        depth_after(ops, n, reads, shape) == Err::<int, KernelError>(e),
    ensures
        depth_after(ops, ops.len() as int, reads, shape) == Err::<int, KernelError>(e),
    decreases ops.len() - n,
{
    if n < ops.len() {
        lemma_depth_error(ops, n + 1, reads, shape, e);
    }
}

proof fn lemma_writes_error(
    writes: Seq<KernelWrite>,
    n: int,
    declared: Seq<FieldId>,
    reads: Option<Seq<FieldId>>,
    shape: KernelInputShape,
    e: KernelError,
)
    requires
        0 <= n <= writes.len(),
        writes_check(writes, n, declared, reads, shape) == Err::<(), KernelError>(e),
    ensures
        writes_check(writes, writes.len() as int, declared, reads, shape) == Err::<(), KernelError>(
            e,
        ),
    decreases writes.len() - n,
{
    if n < writes.len() {
        lemma_writes_error(writes, n + 1, declared, reads, shape, e);
    }
}

impl KernelIr {
    pub fn new(writes: Vec<KernelWrite>) -> (r: KernelIr)
        ensures
            r.writes == writes,
    {
        KernelIr { writes }
    }

    pub fn writes(&self) -> (r: &Vec<KernelWrite>)
        ensures
            *r == self.writes,
    {
        &self.writes
    }

    /// Checks a kernel against what its calculation declares.
    pub fn validate(
        &self,
        declared: &Vec<FieldId>,
        reads: &Option<Vec<FieldId>>,
        shape: KernelInputShape,
    ) -> (r: Result<(), KernelError>)
        ensures
            r == writes_check(
                self.writes@,
                self.writes@.len() as int,
                declared@,
                reads_of(*reads),
                shape,
            ),
    {
        let ghost ws = self.writes@;
        let ghost rs = reads_of(*reads);
        let mut i: usize = 0;
        while i < self.writes.len()
            invariant
                i <= self.writes@.len(),
                ws == self.writes@,
                rs == reads_of(*reads),
                writes_check(ws, i as int, declared@, rs, shape) == Ok::<(), KernelError>(()),
            decreases self.writes@.len() - i,
        {
            let w = &self.writes[i];
            let res = if w.field.0 == FIELD_ALIVE {
                Err(KernelError::WritesAlive)
            } else if self.computed_before(i, w.field) {
                Err(KernelError::DuplicateOutput(w.field))
            } else if !has_field(declared, w.field) {
                Err(KernelError::UndeclaredWrite(w.field))
            } else {
                validate_kernel_ops(&w.ops, reads, shape)
            };
            assert(res == writes_check(ws, i + 1, declared@, rs, shape));
            if let Err(e) = res {
                proof {
                    lemma_writes_error(ws, i + 1, declared@, rs, shape, e);
                }
                return Err(e);
            }
            i = i + 1;
        }
        Ok(())
    }

    /// Whether one of the first `n` outputs is this field.
    fn computed_before(&self, n: usize, f: FieldId) -> (r: bool)
        requires
            n <= self.writes@.len(),
        ensures
            r == exists|i: int| 0 <= i < n && (#[trigger] self.writes@[i]).field == f,
    {
        let mut i: usize = 0;
        while i < n
            invariant
                i <= n <= self.writes@.len(),
                forall|j: int| 0 <= j < i ==> (#[trigger] self.writes@[j]).field != f,
            decreases n - i,
        {
            if self.writes[i].field == f {
                return true;
            }
            i = i + 1;
        }
        false
    }
}

/// An accepted program never misses an operand and leaves exactly one value, whatever it
/// reads.
pub proof fn law_accepted_programs_balance(
    ops: Seq<KernelOp>,
    n: int,
    reads: Option<Seq<FieldId>>,
    shape: KernelInputShape,
    env: KernelEnv,
)
    requires
        program_check(ops, reads, shape) is Ok,
        0 <= n <= ops.len(),
    ensures
        depth_after(ops, n, reads, shape) is Ok,
        stack_after(ops, n, env).len() == depth_after(ops, n, reads, shape)->Ok_0,
        n < ops.len() ==> stack_after(ops, n, env).len() >= operands(ops[n]),
        stack_after(ops, ops.len() as int, env).len() == 1,
    decreases ops.len() - n,
{
    lemma_balance_upto(ops, n, reads, shape, env);
    lemma_balance_upto(ops, ops.len() as int, reads, shape, env);
    lemma_prefix_ok(ops, n, reads, shape);
    if n < ops.len() {
        lemma_prefix_ok(ops, n + 1, reads, shape);
    }
}

proof fn lemma_prefix_ok(
    ops: Seq<KernelOp>,
    n: int,
    reads: Option<Seq<FieldId>>,
    shape: KernelInputShape,
)
    requires
        0 <= n <= ops.len(),
        depth_after(ops, ops.len() as int, reads, shape) is Ok,
    ensures
        depth_after(ops, n, reads, shape) is Ok,
    decreases ops.len() - n,
{
    if n < ops.len() {
        lemma_prefix_ok(ops, n + 1, reads, shape);
    }
}

proof fn lemma_balance_upto(
    ops: Seq<KernelOp>,
    n: int,
    reads: Option<Seq<FieldId>>,
    shape: KernelInputShape,
    env: KernelEnv,
)
    requires
        0 <= n <= ops.len(),
    ensures
        depth_after(ops, n, reads, shape) is Ok ==> stack_after(ops, n, env).len() == depth_after(
            ops,
            n,
            reads,
            shape,
        )->Ok_0,
    decreases n,
{
    if n > 0 {
        lemma_balance_upto(ops, n - 1, reads, shape, env);
    }
}

/// Where committed data can be read.
pub trait SnapshotRead {
    /// The data is in order.
    spec fn ready(&self) -> bool;

    /// The committed value of a cell.
    spec fn cell(&self, inst: InstanceId, field: FieldId) -> Val;

    fn read(&self, inst: InstanceId, field: FieldId) -> (r: Value)
        requires
            self.ready(),
        ensures
            r@ == self.cell(inst, field),
    ;
}

/// What the program of one instance reads.
pub open spec fn lane_env<S: SnapshotRead>(
    source: &S,
    inst: InstanceId,
    input: InputModel,
    no_batch: Val,
) -> KernelEnv {
    KernelEnv { row: |f: FieldId| source.cell(inst, f), input, no_batch }
}

/// The length of a batch as a value.
pub(crate) fn batch_len_value(n: usize) -> (r: i64)
    ensures
        r == saturate(n as int),
{
    if n as u64 <= i64::MAX as u64 {
        n as i64
    } else {
        i64::MAX
    }
}

fn is_true(v: &Value) -> (r: bool)
    ensures
        r == truth(v@),
{
    matches!(v, Value::Bool(true))
}

fn compare_values(a: &Value, op: CmpOp, b: &Value) -> (r: bool)
    ensures
        r == compares(a@, op, b@),
{
    match op {
        CmpOp::Eq => a.val_eq(b),
        CmpOp::Ne => !a.val_eq(b),
        _ => match (a.as_f64(), b.as_f64()) {
            (Some(x), Some(y)) => match op {
                CmpOp::Lt => x.lt(y),
                CmpOp::Le => x.le(y),
                CmpOp::Gt => y.lt(x),
                _ => y.le(x),
            },
            _ => false,
        },
    }
}

/// The result of an instruction on its operands.
pub(crate) fn combine_values(op: &KernelOp, a: Value, b: Value, c: Value) -> (r: Value)
    ensures
        r@ == combine(*op, a@, b@, c@),
{
    match op {
        KernelOp::Add => match (b.as_f64(), c.as_f64()) {
            (Some(x), Some(y)) => Value::Float(x.add(y)),
            _ => Value::Null,
        },
        KernelOp::Sub => match (b.as_f64(), c.as_f64()) {
            (Some(x), Some(y)) => Value::Float(x.sub(y)),
            _ => Value::Null,
        },
        KernelOp::Mul => match (b.as_f64(), c.as_f64()) {
            (Some(x), Some(y)) => Value::Float(x.mul(y)),
            _ => Value::Null,
        },
        KernelOp::Div => match (b.as_f64(), c.as_f64()) {
            (Some(x), Some(y)) => Value::Float(x.div(y)),
            _ => Value::Null,
        },
        KernelOp::Cmp(o) => Value::Bool(compare_values(&b, *o, &c)),
        KernelOp::Not => Value::Bool(!is_true(&c)),
        KernelOp::And => Value::Bool(is_true(&b) && is_true(&c)),
        KernelOp::Or => Value::Bool(is_true(&b) || is_true(&c)),
        KernelOp::Select => if is_true(&a) {
            b
        } else {
            c
        },
        _ => Value::Null,
    }
}

/// Takes the top of the stack. An empty stack gives null.
fn pop_value(stack: &mut Vec<Value>) -> (r: Value)
    ensures
        r@ == top(vals_of(old(stack)@)),
        vals_of(final(stack)@) == rest(vals_of(old(stack)@)),
{
    let ghost before = stack@;
    if stack.len() == 0 {
        Value::Null
    } else {
        let r = stack.pop().unwrap();
        assert(vals_of(stack@) =~= vals_of(before).drop_last());
        r
    }
}

fn push_value(stack: &mut Vec<Value>, v: Value)
    ensures
        vals_of(final(stack)@) == vals_of(old(stack)@).push(v@),
{
    let ghost before = stack@;
    stack.push(v);
    assert(vals_of(stack@) =~= vals_of(before).push(v@));
}

/// Runs a program for one instance.
pub fn eval_kernel_ops<S: SnapshotRead>(
    ops: &Vec<KernelOp>,
    snapshot: &S,
    self_id: InstanceId,
    input: &Input,
) -> (r: Value)
    requires
        snapshot.ready(),
    ensures
        r@ == program_value(ops@, lane_env(snapshot, self_id, input@, Val::Null)),
{
    let ghost env = lane_env(snapshot, self_id, input@, Val::Null);
    let mut stack: Vec<Value> = Vec::new();
    assert(vals_of(stack@) =~= stack_after(ops@, 0, env));
    let mut i: usize = 0;
    while i < ops.len()
        invariant
            snapshot.ready(),
            env == lane_env(snapshot, self_id, input@, Val::Null),
            i <= ops@.len(),
            vals_of(stack@) == stack_after(ops@, i as int, env),
        decreases ops@.len() - i,
    {
        let op = &ops[i];
        let n = arity_of(op);
        if n == 0 {
            let v = match op {
                KernelOp::Const(v) => v.clone(),
                KernelOp::ReadOwn(f) => snapshot.read(self_id, *f),
                KernelOp::InputArg(k) => match input {
                    Input::Each(args) => if *k < args.len() {
                        args[*k].clone()
                    } else {
                        Value::Null
                    },
                    _ => Value::Null,
                },
                KernelOp::FoldInput => match input {
                    Input::Fold(v) => v.clone(),
                    _ => Value::Null,
                },
                _ => match input {
                    Input::Batch(rows) => Value::Int(batch_len_value(rows.len())),
                    _ => Value::Null,
                },
            };
            push_value(&mut stack, v);
        } else if n == 1 {
            let c = pop_value(&mut stack);
            push_value(&mut stack, combine_values(op, Value::Null, Value::Null, c));
        } else if n == 2 {
            let c = pop_value(&mut stack);
            let b = pop_value(&mut stack);
            push_value(&mut stack, combine_values(op, Value::Null, b, c));
        } else {
            let c = pop_value(&mut stack);
            let b = pop_value(&mut stack);
            let a = pop_value(&mut stack);
            push_value(&mut stack, combine_values(op, a, b, c));
        }
        i = i + 1;
    }
    pop_value(&mut stack)
}

impl KernelIr {
    /// The outputs of the kernel for one instance.
    pub fn run<S: SnapshotRead>(
        &self,
        snapshot: &S,
        self_id: InstanceId,
        input: &Input,
    ) -> (r: Vec<(FieldId, Value)>)
        requires
            snapshot.ready(),
        ensures
            r@.len() == self.writes@.len(),
            forall|i: int|
                0 <= i < r@.len() ==> {
                    &&& (#[trigger] r@[i]).0 == self.writes@[i].field
                    &&& r@[i].1@ == program_value(
                        self.writes@[i].ops@,
                        lane_env(snapshot, self_id, input@, Val::Null),
                    )
                },
    {
        let mut out: Vec<(FieldId, Value)> = Vec::new();
        let mut i: usize = 0;
        while i < self.writes.len()
            invariant
                snapshot.ready(),
                i <= self.writes@.len(),
                out@.len() == i,
                forall|j: int|
                    0 <= j < i ==> {
                        &&& (#[trigger] out@[j]).0 == self.writes@[j].field
                        &&& out@[j].1@ == program_value(
                            self.writes@[j].ops@,
                            lane_env(snapshot, self_id, input@, Val::Null),
                        )
                    },
            decreases self.writes@.len() - i,
        {
            let w = &self.writes[i];
            out.push((w.field, eval_kernel_ops(&w.ops, snapshot, self_id, input)));
            i = i + 1;
        }
        out
    }

    /// The fields that the programs of the kernel read, in order.
    pub fn read_fields(&self) -> (r: Vec<FieldId>)
        ensures
            r@ == reads_in_writes(self.writes@),
    {
        let mut out: Vec<FieldId> = Vec::new();
        let mut i: usize = 0;
        assert(self.writes@.take(0) =~= Seq::empty());
        while i < self.writes.len()
            invariant
                i <= self.writes@.len(),
                out@ == reads_in_writes(self.writes@.take(i as int)),
            decreases self.writes@.len() - i,
        {
            let ops = &self.writes[i].ops;
            let ghost before = out@;
            let mut j: usize = 0;
            assert(ops@.take(0) =~= Seq::empty());
            assert(out@ =~= before + reads_in_ops(ops@.take(0)));
            while j < ops.len()
                invariant
                    j <= ops@.len(),
                    out@ == before + reads_in_ops(ops@.take(j as int)),
                decreases ops@.len() - j,
            {
                proof {
                    assert(ops@.take(j + 1).drop_last() =~= ops@.take(j as int));
                }
                if let KernelOp::ReadOwn(f) = &ops[j] {
                    let ghost part = out@;
                    out.push(*f);
                    assert(out@ =~= before + reads_in_ops(ops@.take(j + 1)));
                }
                j = j + 1;
            }
            proof {
                assert(ops@.take(j as int) =~= ops@);
                assert(self.writes@.take(i + 1).drop_last() =~= self.writes@.take(i as int));
            }
            i = i + 1;
        }
        assert(self.writes@.take(i as int) =~= self.writes@);
        out
    }
}

/// The fields that a program reads, in order.
pub open spec fn reads_in_ops(ops: Seq<KernelOp>) -> Seq<FieldId>
    decreases ops.len(),
{
    if ops.len() == 0 {
        Seq::empty()
    } else {
        let r = reads_in_ops(ops.drop_last());
        match ops.last() {
            KernelOp::ReadOwn(f) => r.push(f),
            _ => r,
        }
    }
}

/// The fields that the programs of the outputs read, in order.
pub open spec fn reads_in_writes(ws: Seq<KernelWrite>) -> Seq<FieldId>
    decreases ws.len(),
{
    if ws.len() == 0 {
        Seq::empty()
    } else {
        reads_in_writes(ws.drop_last()) + reads_in_ops(ws.last().ops@)
    }
}

}
