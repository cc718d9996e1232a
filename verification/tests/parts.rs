use pce::calculation::Input;
use pce::column::Column;
use pce::entity::{EntityTypeId, FieldDef, FieldId, InstanceId};
use pce::float64::F64;
use pce::kernel::{
    eval_kernel_ops, validate_kernel_ops, KernelError, KernelInputShape, KernelIr, KernelOp,
    KernelWrite,
};
use pce::kernel_batch::{
    eval_kernel_ops_column, KernelBackend, KernelBatch, ScalarKernelBackend,
};
use pce::predicate::CmpOp;
use pce::runtime::store::{RowPolicy, Store};
use pce::runtime::Residency;
use pce::spatial::SpatialGrid;
use pce::value::Value;

fn n(x: f64) -> F64 {
    F64 { bits: x.to_bits() }
}

fn id(i: u32) -> InstanceId {
    InstanceId { ty: EntityTypeId(1), id: i, generation: 0 }
}

fn store() -> (Store, Vec<InstanceId>, FieldId) {
    let mut s = Store::new();
    let t = s.add_type(
        "T",
        vec![FieldDef::new("_alive", Value::Bool(false)), FieldDef::new("x", Value::Int(0))],
        false,
        RowPolicy::Stable,
    );
    let x = FieldId(1);
    let mut ids = vec![];
    for k in 0..4 {
        let i = s.allocate(t);
        s.set(i, x, Value::Int(k * 10));
        ids.push(i);
    }
    (s, ids, x)
}

#[test]
fn columns_compute_what_instances_compute() {
    let (s, ids, x) = store();
    let ops = vec![
        KernelOp::ReadOwn(x),
        KernelOp::Const(Value::Int(15)),
        KernelOp::Cmp(CmpOp::Lt),
        KernelOp::ReadOwn(x),
        KernelOp::InputArg(0),
        KernelOp::Mul,
        KernelOp::Const(Value::str("big")),
        KernelOp::Select,
    ];
    let inputs: Vec<Input> = (0..4).map(|k| Input::Each(vec![Value::Int(k + 1)])).collect();
    let batch = KernelBatch::new(&s, &ids, &inputs, Residency::Cpu);
    let column = eval_kernel_ops_column(&ops, &batch);
    for (k, i) in ids.iter().enumerate() {
        let one = eval_kernel_ops(&ops, &s, *i, &inputs[k]);
        assert!(column.get(k) == one);
    }
    assert!(column.get(1) == Value::Float(n(20.0)));
    assert!(column.get(3) == Value::str("big"));
    let ir = KernelIr::new(vec![KernelWrite::new(x, ops)]);
    let out = ScalarKernelBackend.run(&ir, batch);
    assert!(out.lane_writes(1)[0].1 == Value::Float(n(20.0)));
    assert_eq!(ScalarKernelBackend.name(), "scalar-soa");
}

#[test]
fn programs_are_checked() {
    let x = FieldId(1);
    let each = KernelInputShape::Each { arity: 1 };
    let check = |ops: Vec<KernelOp>, shape| validate_kernel_ops(&ops, &Some(vec![x]), shape);
    assert!(check(vec![KernelOp::ReadOwn(x)], each).is_ok());
    assert!(check(vec![KernelOp::ReadOwn(FieldId(2))], each)
        == Err(KernelError::UndeclaredRead(FieldId(2))));
    assert!(check(vec![KernelOp::InputArg(1)], each)
        == Err(KernelError::NoSuchArg { index: 1, arity: 1 }));
    assert!(check(vec![KernelOp::FoldInput], each) == Err(KernelError::FoldOutsideFold));
    assert!(check(vec![KernelOp::BatchLen], each) == Err(KernelError::BatchLenOutsideBatch));
    assert!(check(vec![KernelOp::InputArg(0)], KernelInputShape::Fold)
        == Err(KernelError::ArgOutsideEach));
    assert!(check(vec![KernelOp::ReadOwn(x), KernelOp::Add], each)
        == Err(KernelError::StackUnderflow { at: 1 }));
    assert!(check(vec![KernelOp::ReadOwn(x), KernelOp::ReadOwn(x)], each)
        == Err(KernelError::NotOneResult));
}

#[test]
fn a_column_takes_any_value() {
    let mut c = Column::with_default(&Value::Int(1), 2);
    assert!(!matches!(c, Column::Boxed(_)));
    c.set(0, Value::Int(5));
    assert!(c.get(0) == Value::Int(5));
    c.set(1, Value::str("a"));
    assert!(matches!(c, Column::Boxed(_)));
    assert!(c.get(0) == Value::Int(5));
    assert!(c.get(1) == Value::str("a"));
    assert!(c.get(9) == Value::Null);
    c.resize(4, &Value::Int(7));
    assert!(c.get(3) == Value::Int(7));
}

#[test]
fn a_grid_finds_who_is_near() {
    let mut g = SpatialGrid::new(n(10.0));
    for (i, (x, y)) in [(0.0, 0.0), (3.0, 4.0), (9.0, 0.0), (-25.0, 3.0), (3.0, 4.1)].iter().enumerate() {
        g.update(id(i as u32), n(*x), n(*y));
    }
    assert_eq!(g.query_radius(n(0.0), n(0.0), n(5.0)), vec![id(0), id(1)]);
    assert_eq!(g.query_aabb(n(-30.0), n(0.0), n(3.0), n(4.0)), vec![id(0), id(1), id(3)]);
    assert_eq!(g.len(), 5);
    g.update(id(3), n(1.0), n(1.0));
    assert_eq!(g.query_radius(n(0.0), n(0.0), n(2.0)), vec![id(0), id(3)]);
    g.remove(id(0));
    assert_eq!(g.position(id(0)), None);
    assert!(g.query_radius(n(f64::NAN), n(0.0), n(5.0)).is_empty());
    assert!(g.query_radius(n(0.0), n(0.0), n(-1.0)).is_empty());
    let pairs = g.candidate_pairs();
    assert!(pairs.contains(&(id(1), id(2))));
    assert!(!g.can_hold(n(1e300), n(0.0)));
}

#[test]
fn values_compare_as_numbers() {
    assert!(Value::Int(1).val_eq(&Value::Float(n(1.0))));
    assert!(Value::Int(1) != Value::Float(n(1.0)));
    assert!(!Value::Float(n(f64::NAN)).val_eq(&Value::Float(n(f64::NAN))));
    assert!(Value::Bool(true).as_f64() == Some(n(1.0)));
    let m = Value::map(vec![
        ("a".to_string(), Value::Int(1)),
        ("a".to_string(), Value::Int(2)),
    ]);
    assert!(m.get_path(&vec!["a".to_string()]) == Value::Int(2));
    assert!(m.get_path(&vec!["b".to_string()]) == Value::Null);
    let v = Value::vec3(n(1.0), n(2.0), n(3.0));
    assert!(v.get_path(&vec!["z".to_string()]) == Value::Float(n(3.0)));
    assert!(v.get_path(&vec!["w".to_string()]) == Value::Null);
}

#[test]
fn residents_a_cell_apart_are_candidates() {
    let mut grid = SpatialGrid::new(n(4.0));
    grid.update(id(3), n(3.9), n(0.0));
    grid.update(id(1), n(7.9), n(4.0));
    grid.update(id(2), n(-0.1), n(3.9));
    grid.update(id(4), n(40.0), n(40.0));
    assert_eq!(grid.candidate_pairs(), vec![(id(1), id(3)), (id(2), id(3))]);
}

#[test]
fn a_dictionary_has_each_key_once() {
    let pair = |k: &str, x: i64| (k.to_string(), Value::Int(x));
    let a = Value::map(vec![pair("x", 1), pair("y", 2), pair("x", 3)]);
    let b = Value::map(vec![pair("y", 2), pair("x", 3)]);
    let c = Value::map(vec![pair("x", 3), pair("z", 2)]);
    assert!(a == b && b == a);
    assert!(a.val_eq(&b) && b.val_eq(&a));
    assert!(a != c && c != a);
    assert!(a.get_path(&vec!["x".to_string()]) == Value::Int(3));
    let outer = |v: &Value| Value::map(vec![("in".to_string(), v.clone())]);
    assert!(outer(&a) == outer(&b) && outer(&a) != outer(&c));
}
