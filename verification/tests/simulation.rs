use pce::calculation::{Ctx, Input};
use pce::entity::{EntityTypeId, FieldDef, FieldId, InstanceId};
use pce::predicate::{own, own_field, Cond, Delivery, Dir, Expr, Predicate, Proj, ValRef};
use pce::runtime::engine::Runtime;
use pce::runtime::Detect;
use pce::float64::F64;
use pce::value::Value;

type Body = Box<dyn Fn(&mut Ctx<'_>, &Input) + Send + Sync>;

fn num(x: f64) -> F64 {
    F64 { bits: x.to_bits() }
}

#[test]
fn hp_below_threshold_triggers_flee() {
    let mut rt: Runtime<Body> = Runtime::new(Detect::Silent);
    let unit = rt.register_entity_type(
        "Unit",
        vec![
            FieldDef::new("hp", Value::Int(100)),
            FieldDef::new("hp_max", Value::Int(100)),
            FieldDef::new("state", Value::str("idle")),
        ],
        false,
    );
    let hp = rt.field(unit, &"hp".to_string());
    let hp_max = rt.field(unit, &"hp_max".to_string());
    let state = rt.field(unit, &"state".to_string());
    let pred = Predicate::new(
        own(hp),
        Cond::Crossed(
            Expr::Mul(
                Box::new(Expr::Val(ValRef::Const(Value::Float(num(0.3))))),
                Box::new(own_field(hp_max)),
            ),
            Dir::Down,
        ),
        Delivery::Each(vec![Proj::New(vec![]), Proj::Old(vec![])]),
    );
    let body: Body = Box::new(move |ctx, _input| ctx.write(state, Value::str("flee")));
    rt.register_calculation("flee", unit, pred, &vec![state], body).unwrap();
    let u = rt.spawn(unit, vec![]);
    rt.step();
    assert!(rt.read(u, state) == Value::str("idle"));
    rt.debug_write(u, hp, Value::Int(20));
    rt.step();
    assert!(rt.read(u, state) == Value::str("flee"));
}
