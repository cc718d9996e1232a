use pce::calculation::{CalcId, Ctx, Input};
use pce::dsl::{crossed_down, new_, newv, oldv, own as own_scope, own_, path, self_, val, writer};
use pce::dsl_build::BuildError;
use pce::dsl_resolve::NameError;
use pce::entity::{EntityTypeId, FieldDef, FieldId, InstanceId, FIELD_ALIVE};
use pce::float64::F64;
use pce::predicate::{
    inst, own, type_scope, CmpOp, Cond, Delivery, Dir, Expr, FoldOp, Predicate, Proj, Scope, ValRef,
};
use pce::runtime::engine::{validate_external_write, validate_spawn, Runtime, WriteError};
use pce::runtime::exec::RunResult;
use pce::runtime::merge::{merge_results, NoteKind};
use pce::runtime::registry::RegisterError;
use pce::runtime::route::Trigger;
use pce::runtime::store::RowPolicy;
use pce::runtime::{CalcOptions, Detect, Determinism, Residency, Tier};
use pce::value::Value;

type Body = Box<dyn Fn(&mut Ctx<'_>, &Input) + Send + Sync>;

fn n(x: f64) -> F64 {
    F64 { bits: x.to_bits() }
}

fn empty() -> Runtime<Body> {
    Runtime::new(Detect::Silent)
}

fn ty(rt: &mut Runtime<Body>, name: &str, fields: Vec<FieldDef>) -> EntityTypeId {
    rt.register_entity_type(name, fields, false)
}

fn f(rt: &Runtime<Body>, t: EntityTypeId, name: &str) -> FieldId {
    rt.field(t, &name.to_string())
}

#[test]
fn a_sum_is_kept_write_by_write() {
    let mut rt = empty();
    let enemy = ty(&mut rt, "Enemy", vec![FieldDef::new("hp", Value::Int(0))]);
    let ui = rt.register_entity_type(
        "BossBar",
        vec![FieldDef::new("total_hp", Value::Float(n(0.0)))],
        true,
    );
    let hp = f(&rt, enemy, "hp");
    let total = f(&rt, ui, "total_hp");
    let body: Body = Box::new(move |ctx, input| ctx.write(total, input.agg().clone()));
    let pred =
        Predicate::new(type_scope(enemy, hp), Cond::True, Delivery::Fold(FoldOp::Sum));
    rt.register_calculation("boss_bar", ui, pred, &vec![total], body).unwrap();
    let bar = rt.alive(ui)[0];
    let e = rt.spawn(enemy, vec![(hp, Value::Int(100))]);
    rt.step();
    assert!(rt.read(bar, total) == Value::Float(n(100.0)));
    let _other = rt.spawn(enemy, vec![(hp, Value::Int(50))]);
    rt.debug_write(e, hp, Value::Int(30));
    rt.step();
    assert!(rt.read(bar, total) == Value::Float(n(80.0)));
}

#[test]
fn a_minimum_forgets_the_dead() {
    let mut rt = empty();
    let enemy = ty(&mut rt, "Enemy", vec![FieldDef::new("hp", Value::Int(0))]);
    let ui = rt.register_entity_type("Bar", vec![FieldDef::new("least", Value::Null)], true);
    let hp = f(&rt, enemy, "hp");
    let least = f(&rt, ui, "least");
    let body: Body = Box::new(move |ctx, input| ctx.write(least, input.agg().clone()));
    let pred =
        Predicate::new(type_scope(enemy, hp), Cond::True, Delivery::Fold(FoldOp::Min));
    rt.register_calculation("least", ui, pred, &vec![least], body).unwrap();
    let bar = rt.alive(ui)[0];
    let a = rt.spawn(enemy, vec![(hp, Value::Int(10))]);
    let b = rt.spawn(enemy, vec![(hp, Value::Int(20))]);
    rt.step();
    assert!(rt.read(bar, least) == Value::Float(n(10.0)));
    rt.destroy(a);
    rt.step();
    assert!(rt.read(bar, least) == Value::Float(n(20.0)));
    rt.debug_write(b, hp, Value::Int(25));
    rt.step();
    assert!(rt.read(bar, least) == Value::Float(n(25.0)));
}

#[test]
fn an_attack_reaches_its_target_alone() {
    let mut rt = empty();
    let unit = ty(&mut rt, "Unit", vec![FieldDef::new("hp", Value::Int(100))]);
    let attacker = ty(&mut rt, "Attacker", vec![FieldDef::new("out", Value::Null)]);
    let hp = f(&rt, unit, "hp");
    let out = f(&rt, attacker, "out");
    let pred = Predicate::new(
        type_scope(attacker, out),
        Cond::Cmp(
            Expr::Val(ValRef::New(vec!["target".to_string()])),
            CmpOp::Eq,
            Expr::Val(ValRef::SelfRef),
        ),
        Delivery::Each(vec![Proj::New(vec!["dmg".to_string()]), Proj::WriterId]),
    );
    let body: Body = Box::new(move |ctx, input| {
        let left = ctx.read_own(hp).as_i64().unwrap() - input.arg(0).as_i64().unwrap();
        assert!(input.arg(1).as_ref_id().is_some());
        ctx.write(hp, Value::Int(left));
    });
    rt.register_calculation("take_damage", unit, pred, &vec![hp], body).unwrap();
    let u = rt.spawn(unit, vec![]);
    let v = rt.spawn(unit, vec![]);
    let a = rt.spawn(attacker, vec![]);
    rt.step();
    rt.debug_write(
        a,
        out,
        Value::map(vec![
            ("target".to_string(), Value::Ref(u)),
            ("dmg".to_string(), Value::Int(30)),
        ]),
    );
    rt.step();
    assert!(rt.read(u, hp) == Value::Int(70));
    assert!(rt.read(v, hp) == Value::Int(100));
    rt.step();
    assert!(rt.read(u, hp) == Value::Int(70));
}

#[test]
fn a_crossing_triggers_once() {
    let mut rt = empty();
    let unit = ty(
        &mut rt,
        "Unit",
        vec![FieldDef::new("hp", Value::Int(100)), FieldDef::new("hits", Value::Int(0))],
    );
    let hp = f(&rt, unit, "hp");
    let hits = f(&rt, unit, "hits");
    let pred = Predicate::new(
        own(hp),
        Cond::Crossed(Expr::Val(ValRef::Const(Value::Int(30))), Dir::Down),
        Delivery::Each(vec![]),
    );
    let body: Body = Box::new(move |ctx, _| {
        let k = ctx.read_own(hits).as_i64().unwrap();
        ctx.write(hits, Value::Int(k + 1));
    });
    rt.register_calculation("count", unit, pred, &vec![hits], body).unwrap();
    let u = rt.spawn(unit, vec![]);
    rt.step();
    for v in [20, 10, 5] {
        rt.debug_write(u, hp, Value::Int(v));
        rt.step();
    }
    assert!(rt.read(u, hits) == Value::Int(1));
    rt.debug_write(u, hp, Value::Int(50));
    rt.step();
    rt.debug_write(u, hp, Value::Int(29));
    rt.step();
    assert!(rt.read(u, hits) == Value::Int(2));
}

#[test]
fn a_reference_to_the_dead_is_null() {
    let mut rt = empty();
    let unit = ty(&mut rt, "Unit", vec![FieldDef::reference("target"), FieldDef::new("lost", Value::Bool(false))]);
    let target = f(&rt, unit, "target");
    let lost = f(&rt, unit, "lost");
    let pred = Predicate::new(own(target), Cond::Became(Value::Null), Delivery::Each(vec![]));
    let body: Body = Box::new(move |ctx, _| ctx.write(lost, Value::Bool(true)));
    rt.register_calculation("lost", unit, pred, &vec![lost], body).unwrap();
    let a = rt.spawn(unit, vec![]);
    let b = rt.spawn(unit, vec![(target, Value::Ref(a))]);
    rt.step();
    rt.destroy(a);
    assert!(rt.read(b, target) == Value::Null);
    rt.step();
    assert!(rt.read(b, lost) == Value::Bool(true));
    let c = rt.spawn(unit, vec![]);
    assert_eq!(c.id, a.id);
    assert!(c.generation != a.generation);
    assert!(rt.read(a, target) == Value::Null);
}

#[test]
fn a_calculation_may_follow_a_reference() {
    let mut rt = empty();
    let unit = ty(
        &mut rt,
        "Unit",
        vec![
            FieldDef::reference("leader"),
            FieldDef::new("pos", Value::Int(0)),
            FieldDef::new("seen", Value::Int(-1)),
        ],
    );
    let (leader, pos, seen) = (f(&rt, unit, "leader"), f(&rt, unit, "pos"), f(&rt, unit, "seen"));
    let pred =
        Predicate::new(inst(leader, pos), Cond::True, Delivery::Each(vec![Proj::New(vec![])]));
    let body: Body = Box::new(move |ctx, input| ctx.write(seen, input.arg(0).clone()));
    rt.register_calculation("follow", unit, pred, &vec![seen], body).unwrap();
    let a = rt.spawn(unit, vec![]);
    let b = rt.spawn(unit, vec![(leader, Value::Ref(a))]);
    rt.step();
    rt.debug_write(a, pos, Value::Int(7));
    rt.step();
    assert!(rt.read(b, seen) == Value::Int(7));
    assert!(rt.read(a, seen) == Value::Int(-1));
}

#[test]
fn a_conjunction_waits_for_both() {
    let mut rt = empty();
    let unit = ty(
        &mut rt,
        "Unit",
        vec![
            FieldDef::new("a", Value::Int(0)),
            FieldDef::new("b", Value::Int(0)),
            FieldDef::new("both", Value::Int(0)),
        ],
    );
    let (a, b, both) = (f(&rt, unit, "a"), f(&rt, unit, "b"), f(&rt, unit, "both"));
    let scope = Scope::And(Box::new(own(a)), Box::new(own(b)));
    let body: Body = Box::new(move |ctx, _| {
        let k = ctx.read_own(both).as_i64().unwrap();
        ctx.write(both, Value::Int(k + 1));
    });
    let pred = Predicate::new(scope, Cond::Changed, Delivery::Each(vec![]));
    rt.register_calculation("both", unit, pred, &vec![both], body).unwrap();
    let u = rt.spawn(unit, vec![]);
    rt.step();
    rt.debug_write(u, a, Value::Int(1));
    rt.step();
    assert!(rt.read(u, both) == Value::Int(0));
    rt.debug_write(u, a, Value::Int(2));
    rt.debug_write(u, b, Value::Int(2));
    rt.step();
    assert!(rt.read(u, both) == Value::Int(1));
}

#[test]
fn a_canonical_batch_is_sorted_by_writer() {
    let mut rt = empty();
    rt.set_determinism(Determinism::Canonical);
    let unit = ty(&mut rt, "Unit", vec![FieldDef::new("x", Value::Int(0))]);
    let sink = rt.register_entity_type("Sink", vec![FieldDef::new("order", Value::Null)], true);
    let x = f(&rt, unit, "x");
    let order = f(&rt, sink, "order");
    let body: Body = Box::new(move |ctx, input| {
        let mut k = 0;
        for row in input.rows() {
            k = k * 10 + row[0].as_i64().unwrap();
        }
        ctx.write(order, Value::Int(k));
    });
    let pred = Predicate::new(
        type_scope(unit, x),
        Cond::Changed,
        Delivery::Batch(vec![Proj::New(vec![])]),
    );
    rt.register_calculation("order", sink, pred, &vec![order], body).unwrap();
    let us: Vec<InstanceId> = (0..3).map(|_| rt.spawn(unit, vec![])).collect();
    rt.step();
    rt.debug_write(us[2], x, Value::Int(3));
    rt.debug_write(us[0], x, Value::Int(1));
    rt.debug_write(us[1], x, Value::Int(2));
    rt.step();
    let s = rt.alive(sink)[0];
    assert!(rt.read(s, order) == Value::Int(123));
}

#[test]
fn every_frame_runs_everyone() {
    let mut rt = empty();
    let unit = ty(&mut rt, "Unit", vec![FieldDef::new("age", Value::Int(0))]);
    let age = f(&rt, unit, "age");
    let (cty, frame) = (rt.clock().ty, rt.clock().f_frame);
    let pred = Predicate::new(type_scope(cty, frame), Cond::True, Delivery::Each(vec![]));
    let body: Body = Box::new(move |ctx, _| {
        let k = ctx.read_own(age).as_i64().unwrap();
        ctx.write(age, Value::Int(k + 1));
    });
    rt.register_calculation("age", unit, pred, &vec![age], body).unwrap();
    let a = rt.spawn(unit, vec![]);
    let b = rt.spawn(unit, vec![]);
    for _ in 0..5 {
        rt.step();
    }
    assert!(rt.read(a, age) == Value::Int(5));
    assert!(rt.read(b, age) == Value::Int(5));
    assert_eq!(rt.frame(), 5);
    assert_eq!(rt.profile().triggers(CalcId(0)), 10);
}

#[test]
fn an_alarm_rings_in_its_frame() {
    let mut rt = empty();
    let sink = rt.register_entity_type("Sink", vec![FieldDef::new("got", Value::Null)], true);
    let got = f(&rt, sink, "got");
    let (cty, alarm) = (rt.clock().ty, rt.clock().f_alarm);
    let pred = Predicate::new(
        type_scope(cty, alarm),
        Cond::True,
        Delivery::Each(vec![Proj::New(vec![])]),
    );
    let body: Body = Box::new(move |ctx, input| ctx.write(got, input.arg(0).clone()));
    rt.register_calculation("ring", sink, pred, &vec![got], body).unwrap();
    rt.set_alarm(3, Value::str("boom"));
    let s = rt.alive(sink)[0];
    rt.step();
    rt.step();
    assert!(rt.read(s, got) == Value::Null);
    rt.step();
    assert!(rt.read(s, got) == Value::str("boom"));
    rt.set_alarm_in(2, Value::str("again"));
    rt.step();
    assert!(rt.read(s, got) == Value::str("boom"));
    rt.step();
    assert!(rt.read(s, got) == Value::str("again"));
}

#[test]
fn instances_are_made_and_ended_at_the_end_of_a_frame() {
    let mut rt = empty();
    let shot = ty(&mut rt, "Shot", vec![FieldDef::new("power", Value::Int(1))]);
    let gun = ty(&mut rt, "Gun", vec![FieldDef::new("fire", Value::Int(0))]);
    let power = f(&rt, shot, "power");
    let fire = f(&rt, gun, "fire");
    let body: Body = Box::new(move |ctx, input| {
        ctx.spawn(shot, vec![(power, input.arg(0).clone())]);
        ctx.spawn(shot, vec![(FieldId(99), Value::Null)]);
        ctx.destroy_self();
    });
    let pred = Predicate::new(own(fire), Cond::Changed, Delivery::Each(vec![Proj::New(vec![])]));
    rt.register_calculation("fire", gun, pred, &vec![], body).unwrap();
    let g = rt.spawn(gun, vec![]);
    rt.step();
    rt.debug_write(g, fire, Value::Int(9));
    let report = rt.step();
    assert_eq!(report.born.len(), 2);
    let s = report.born[0].unwrap();
    assert!(report.born[1].is_none());
    assert!(rt.read(s, power) == Value::Int(9));
    assert!(rt.alive(gun).is_empty());
}

#[test]
fn what_breaks_declarations_is_noted() {
    let mut rt = empty();
    let unit = ty(
        &mut rt,
        "Unit",
        vec![
            FieldDef::new("x", Value::Int(0)),
            FieldDef::new("y", Value::Int(0)),
            FieldDef::new("z", Value::Int(0)),
        ],
    );
    let (x, y, z) = (f(&rt, unit, "x"), f(&rt, unit, "y"), f(&rt, unit, "z"));
    let body: Body = Box::new(move |ctx, _| {
        let _ = ctx.read_own(z);
        ctx.write(y, Value::Int(1));
        ctx.write(z, Value::Int(1));
        ctx.write(y, Value::Int(2));
    });
    let opts = CalcOptions { reads: Some(vec![x]), tier: Tier::General, residency: Residency::Auto };
    let pred = Predicate::new(own(x), Cond::Changed, Delivery::Each(vec![]));
    rt.register_calculation_opt("bad", unit, pred, &vec![y], opts, body).unwrap();
    let u = rt.spawn(unit, vec![]);
    rt.step();
    rt.debug_write(u, x, Value::Int(1));
    let report = rt.step();
    assert_eq!(report.notes.len(), 3);
    assert!(matches!(report.notes[0].kind, NoteKind::Broke(_)));
    assert!(report.notes[1].kind == NoteKind::UndeclaredWrite(z));
    assert!(report.notes[2].kind == NoteKind::Conflict(y));
    assert!(rt.read(u, y) == Value::Int(2));
    assert!(rt.read(u, z) == Value::Int(0));
}

#[test]
fn registration_refuses_what_it_must() {
    let mut rt = empty();
    let unit = ty(&mut rt, "Unit", vec![FieldDef::new("x", Value::Int(0)), FieldDef::reference("r")]);
    let (x, r) = (f(&rt, unit, "x"), f(&rt, unit, "r"));
    let nothing = || -> Body { Box::new(|_, _| {}) };
    let each = || Delivery::Each(vec![]);
    let or_of_and = Scope::Or(
        Box::new(Scope::And(Box::new(own(x)), Box::new(own(r)))),
        Box::new(own(x)),
    );
    let e = rt.register_calculation(
        "a",
        unit,
        Predicate::new(or_of_and, Cond::True, each()),
        &vec![],
        nothing(),
    );
    assert!(e == Err(RegisterError::ScopeNesting));
    let and = Scope::And(Box::new(own(x)), Box::new(own(r)));
    let e = rt.register_calculation(
        "a",
        unit,
        Predicate::new(and, Cond::True, Delivery::Batch(vec![])),
        &vec![],
        nothing(),
    );
    assert!(e == Err(RegisterError::ConjunctionDelivery));
    let e = rt.register_calculation(
        "a",
        unit,
        Predicate::new(own(FieldId(9)), Cond::True, each()),
        &vec![],
        nothing(),
    );
    assert!(e == Err(RegisterError::NoSuchField(unit, FieldId(9))));
    let e = rt.register_calculation(
        "a",
        unit,
        Predicate::new(type_scope(EntityTypeId(9), x), Cond::True, each()),
        &vec![],
        nothing(),
    );
    assert!(e == Err(RegisterError::NoSuchType(EntityTypeId(9))));
    let e = rt.register_calculation(
        "a",
        unit,
        Predicate::new(inst(x, x), Cond::True, each()),
        &vec![],
        nothing(),
    );
    assert!(e == Err(RegisterError::NotARef(x)));
    let (cty, frame) = (rt.clock().ty, rt.clock().f_frame);
    let e = rt.register_calculation(
        "a",
        cty,
        Predicate::new(own(frame), Cond::True, each()),
        &vec![frame],
        nothing(),
    );
    assert!(e == Err(RegisterError::ClockCells));
    let ok = rt.register_calculation(
        "a",
        unit,
        Predicate::new(own(x), Cond::True, each()),
        &vec![x],
        nothing(),
    );
    assert!(ok == Ok(CalcId(0)));
    let e = rt.register_calculation(
        "b",
        unit,
        Predicate::new(own(x), Cond::True, each()),
        &vec![x],
        nothing(),
    );
    assert!(e == Err(RegisterError::Owned { field: x, owner: CalcId(0) }));
}

#[test]
fn writes_from_outside_are_checked() {
    let mut rt = empty();
    let unit = ty(&mut rt, "Unit", vec![FieldDef::new("x", Value::Int(0))]);
    let x = f(&rt, unit, "x");
    let clock = rt.clock().ty;
    let check = |t, field| {
        let i = InstanceId { ty: t, id: 0, generation: 0 };
        validate_external_write(&rt.store, clock, i, field)
    };
    assert!(check(unit, x).is_none());
    assert!(check(unit, FieldId(FIELD_ALIVE)) == Some(WriteError::Alive));
    assert!(check(unit, FieldId(7)) == Some(WriteError::NoSuchField(unit, FieldId(7))));
    assert!(check(clock, rt.clock().f_frame) == Some(WriteError::ClockCells));
    assert!(check(EntityTypeId(9), x) == Some(WriteError::NoSuchType(EntityTypeId(9))));
    assert!(validate_spawn(&rt.store, unit, &vec![(x, Value::Null)]).is_none());
    assert!(validate_spawn(&rt.store, unit, &vec![(FieldId(FIELD_ALIVE), Value::Null)])
        == Some(WriteError::Alive));
}

fn busy() -> (Runtime<Body>, Vec<InstanceId>, FieldId, FieldId) {
    let mut rt = empty();
    rt.set_determinism(Determinism::Canonical);
    let unit = rt.register_entity_type_with(
        "Unit",
        vec![FieldDef::new("x", Value::Int(0)), FieldDef::new("y", Value::Int(0))],
        false,
        RowPolicy::Compact,
    );
    let (x, y) = (f(&rt, unit, "x"), f(&rt, unit, "y"));
    let body: Body = Box::new(move |ctx, input| {
        let mut k = ctx.read_own(y).as_i64().unwrap();
        for row in input.rows() {
            k = (k * 31 + row[0].as_i64().unwrap()) % 1_000_003;
        }
        ctx.write(y, Value::Int(k));
    });
    let pred = Predicate::new(
        type_scope(unit, x),
        Cond::Changed,
        Delivery::Batch(vec![Proj::New(vec![])]),
    );
    rt.register_calculation("mix", unit, pred, &vec![y], body).unwrap();
    let us = (0..20).map(|_| rt.spawn(unit, vec![])).collect();
    rt.step();
    (rt, us, x, y)
}

fn drive(rt: &mut Runtime<Body>, us: &[InstanceId], x: FieldId, frames: i64, parallel: bool) {
    for k in 0..frames {
        for (i, u) in us.iter().enumerate() {
            rt.debug_write(*u, x, Value::Int(k * 7 + i as i64 * i as i64));
        }
        if parallel {
            rt.step_parallel();
        } else {
            rt.step();
        }
    }
}

#[test]
fn parallel_steps_come_to_the_same() {
    let (mut a, us, x, y) = busy();
    let (mut b, vs, _, _) = busy();
    drive(&mut a, &us, x, 6, false);
    drive(&mut b, &vs, x, 6, true);
    for (u, v) in us.iter().zip(&vs) {
        assert!(a.read(*u, y) == b.read(*v, y));
        assert!(a.read(*u, y) != Value::Int(0));
    }
}

#[test]
fn a_replay_from_a_snapshot_comes_to_the_same() {
    let (mut rt, us, x, y) = busy();
    drive(&mut rt, &us, x, 2, false);
    let snap = rt.snapshot();
    drive(&mut rt, &us, x, 3, false);
    let first: Vec<Value> = us.iter().map(|u| rt.read(*u, y)).collect();
    rt.destroy(us[3]);
    rt.step();
    rt.restore(&snap);
    assert_eq!(rt.frame(), snap.frame());
    drive(&mut rt, &us, x, 3, false);
    for (u, v) in us.iter().zip(&first) {
        assert!(rt.read(*u, y) == *v);
    }
}

#[test]
fn the_indexes_agree_with_the_conditions() {
    let consts = [-2i64, 0, 1, 3, 7];
    let mut rt = empty();
    let unit = ty(&mut rt, "Unit", vec![FieldDef::new("x", Value::Int(0))]);
    let x = f(&rt, unit, "x");
    let mut conds: Vec<(Box<dyn Fn(i64, i64) -> bool>, EntityTypeId)> = vec![];
    let lit = |k: i64| Expr::Val(ValRef::Const(Value::Int(k)));
    let new = || Expr::Val(ValRef::New(vec![]));
    let mut add = |rt: &mut Runtime<Body>, cond: Cond, test: Box<dyn Fn(i64, i64) -> bool>| {
        let t = rt.register_entity_type("Probe", vec![FieldDef::new("hit", Value::Int(0))], true);
        let hit = f(rt, t, "hit");
        let body: Body = Box::new(move |ctx, _| {
            let k = ctx.read_own(hit).as_i64().unwrap();
            ctx.write(hit, Value::Int(k + 1));
        });
        let pred = Predicate::new(type_scope(unit, x), cond, Delivery::Each(vec![]));
        rt.register_calculation("probe", t, pred, &vec![hit], body).unwrap();
        conds.push((test, t));
    };
    for c in consts {
        add(&mut rt, Cond::Cmp(new(), CmpOp::Eq, lit(c)), Box::new(move |_, v| v == c));
        add(&mut rt, Cond::Cmp(new(), CmpOp::Ne, lit(c)), Box::new(move |_, v| v != c));
        add(&mut rt, Cond::Cmp(new(), CmpOp::Lt, lit(c)), Box::new(move |_, v| v < c));
        add(&mut rt, Cond::Cmp(new(), CmpOp::Le, lit(c)), Box::new(move |_, v| v <= c));
        add(&mut rt, Cond::Cmp(lit(c), CmpOp::Lt, new()), Box::new(move |_, v| c < v));
        add(&mut rt, Cond::Cmp(new(), CmpOp::Ge, lit(c)), Box::new(move |_, v| v >= c));
        add(&mut rt, Cond::Crossed(lit(c), Dir::Down), Box::new(move |o, v| o >= c && v < c));
        add(&mut rt, Cond::Crossed(lit(c), Dir::Up), Box::new(move |o, v| o <= c && v > c));
        add(&mut rt, Cond::Became(Value::Int(c)), Box::new(move |o, v| o != c && v == c));
    }
    add(&mut rt, Cond::Changed, Box::new(|o, v| o != v));
    add(
        &mut rt,
        Cond::InSet(vec![Value::Int(1), Value::Int(3)]),
        Box::new(|_, v| v == 1 || v == 3),
    );
    add(&mut rt, Cond::InRange(n(0.0), n(3.0)), Box::new(|_, v| (0..=3).contains(&v)));
    add(
        &mut rt,
        Cond::And(
            Box::new(Cond::Changed),
            Box::new(Cond::Cmp(new(), CmpOp::Lt, lit(3))),
        ),
        Box::new(|o, v| o != v && v < 3),
    );
    add(
        &mut rt,
        Cond::Or(
            Box::new(Cond::Cmp(new(), CmpOp::Eq, lit(7))),
            Box::new(Cond::Cmp(new(), CmpOp::Lt, lit(0))),
        ),
        Box::new(|_, v| v == 7 || v < 0),
    );
    add(
        &mut rt,
        Cond::AndNot(
            Box::new(Cond::Cmp(new(), CmpOp::Gt, lit(0))),
            Box::new(Cond::Cmp(new(), CmpOp::Eq, lit(3))),
        ),
        Box::new(|_, v| v > 0 && v != 3),
    );
    let u = rt.spawn(unit, vec![]);
    rt.step();
    let mut expected: Vec<i64> = conds
        .iter()
        .map(|(_, t)| {
            let s = rt.alive(*t)[0];
            rt.read(s, f(&rt, *t, "hit")).as_i64().unwrap()
        })
        .collect();
    let mut before = 0;
    for v in [1, 1, 7, 3, -2, 0, -5, 2, 8, 3, 3, 1, 0, 7, -2] {
        rt.debug_write(u, x, Value::Int(v));
        rt.step();
        for (k, (test, t)) in conds.iter().enumerate() {
            if test(before, v) {
                expected[k] += 1;
            }
            let s = rt.alive(*t)[0];
            assert!(
                rt.read(s, f(&rt, *t, "hit")) == Value::Int(expected[k]),
                "condition {k}, {before} to {v}"
            );
        }
        before = v;
    }
}

#[test]
fn calculations_are_built_by_name() {
    let mut rt = empty();
    let unit = rt
        .entity("Unit")
        .field("hp", Value::Int(100))
        .field("hp_max", Value::Int(100))
        .field("state", Value::str("idle"))
        .ref_field("target")
        .done(&mut rt);
    let state = f(&rt, unit, "state");
    let body: Body = Box::new(move |ctx, _| ctx.write(state, Value::str("fleeing")));
    rt.calc("flee", unit)
        .on(own_scope("hp"))
        .when(crossed_down(own_("hp_max").mul(val(Value::Float(n(0.3))))))
        .each(vec![newv(), oldv(), writer()])
        .writes(&["state"])
        .reads(&["hp"])
        .body(&mut rt, body)
        .unwrap();
    let u = rt.spawn(unit, vec![]);
    rt.step();
    rt.debug_write(u, f(&rt, unit, "hp"), Value::Int(29));
    rt.step();
    assert!(rt.read(u, state) == Value::str("fleeing"));
}

#[test]
fn names_that_do_not_resolve_are_told() {
    let mut rt = empty();
    let unit = rt.entity("Unit").field("hp", Value::Int(100)).ref_field("to").done(&mut rt);
    let other = rt.entity("Other").field("pad", Value::Null).field("hp", Value::Null).done(&mut rt);
    let nothing = || -> Body { Box::new(|_, _| {}) };
    let e = rt.calc("a", unit).body(&mut rt, nothing());
    assert!(matches!(e, Err(BuildError::NoScope)));
    let e = rt.calc("a", unit).on(own_scope("mana")).body(&mut rt, nothing());
    assert!(matches!(e, Err(BuildError::Name(NameError::NoSuchField(t, ref s))) if t == unit && s == "mana"));
    let e = rt.calc("a", unit).on(pce::dsl::via("to", "hp")).body(&mut rt, nothing());
    assert!(matches!(e, Err(BuildError::Name(NameError::Ambiguous(ref s))) if s == "hp"));
    let e = rt.calc("a", unit).on(pce::dsl::via("to", "mana")).body(&mut rt, nothing());
    assert!(matches!(e, Err(BuildError::Name(NameError::NoSuchTarget(_)))));
    let e = rt.calc("a", EntityTypeId(77)).on(own_scope("hp")).body(&mut rt, nothing());
    assert!(matches!(e, Err(BuildError::Name(NameError::NoSuchType(_)))));
    let e = rt.calc("a", unit).on(own_scope("hp")).when(writer().eq(self_())).body(&mut rt, nothing());
    assert!(matches!(e, Err(BuildError::Name(NameError::WriterInCondition))));
    let e = rt.calc("a", unit).on(own_scope("hp")).each(vec![self_()]).body(&mut rt, nothing());
    assert!(matches!(e, Err(BuildError::Name(NameError::NotDeliverable))));
    let e = rt.calc("a", unit).on(own_scope("to")).when(new_("a.b").lt(val(Value::Int(1)))).writes(&["hp"]).body(&mut rt, nothing());
    assert!(e.is_ok());
    let e = rt.calc("b", unit).on(own_scope("to")).writes(&["hp"]).body(&mut rt, nothing());
    assert!(matches!(e, Err(BuildError::Register(RegisterError::Owned { .. }))));
    let ok = rt.calc("c", other).on(pce::dsl::via("pad", "pad")).body(&mut rt, nothing());
    assert!(matches!(ok, Err(BuildError::Register(RegisterError::NotARef(_)))));
}

#[test]
fn paths_are_split_at_dots() {
    assert!(path("").is_empty());
    assert_eq!(path("a"), vec!["a".to_string()]);
    assert_eq!(path("a.b"), vec!["a".to_string(), "b".to_string()]);
    assert_eq!(path(".a."), vec!["".to_string(), "a".to_string(), "".to_string()]);
}

#[test]
fn runs_of_different_cells_may_change_places() {
    let mut rt = empty();
    let unit = ty(
        &mut rt,
        "Unit",
        vec![FieldDef::new("a", Value::Int(0)), FieldDef::new("b", Value::Int(0))],
    );
    let (fa, fb) = (f(&rt, unit, "a"), f(&rt, unit, "b"));
    let u = rt.spawn(unit, vec![]);
    let v = rt.spawn(unit, vec![]);
    let mut calcs: Vec<CalcId> = vec![];
    for field in [fa, fb] {
        let body: Body = Box::new(|_, _| {});
        let pred = Predicate::new(own(field), Cond::True, Delivery::Each(vec![]));
        calcs.push(rt.register_calculation("c", unit, pred, &vec![field], body).unwrap());
    }
    let runs = |order: &[usize]| {
        let all = [
            (calcs[0], u, vec![(fa, Value::Int(1)), (fa, Value::Int(2))]),
            (calcs[1], u, vec![(fb, Value::Int(3)), (fa, Value::Int(9))]),
            (calcs[0], v, vec![(fa, Value::Int(4))]),
            (calcs[0], u, vec![(fa, Value::Int(5))]),
        ];
        let mut triggers: Vec<Trigger> = vec![];
        let mut results: Vec<RunResult> = vec![];
        for k in order {
            let (calc, subscriber, writes) = all[*k].clone();
            triggers.push(Trigger { calc, subscriber, input: Input::Each(vec![]) });
            results.push(RunResult { writes, spawns: vec![], violations: vec![] });
        }
        merge_results(&rt.store, &rt.infos, &triggers, results)
    };
    for order in [[0, 1, 2, 3], [2, 1, 0, 3], [0, 3, 2, 1], [1, 0, 3, 2]] {
        let out = runs(&order);
        assert_eq!(out.log.len(), 3);
        for (i, field, x) in [(u, fa, 5), (u, fb, 3), (v, fa, 4)] {
            let w = out.log.iter().find(|w| w.inst == i && w.field == field).unwrap();
            assert!(w.new == Value::Int(x) && w.old == Value::Int(0));
        }
        let undeclared =
            out.notes.iter().filter(|m| m.kind == NoteKind::UndeclaredWrite(fa)).count();
        assert_eq!(undeclared, 1);
    }
}

#[test]
fn a_type_may_be_registered_after_its_calculations() {
    let mut rt = empty();
    let unit = ty(&mut rt, "Unit", vec![FieldDef::new("x", Value::Int(0))]);
    let x = f(&rt, unit, "x");
    let later = EntityTypeId(unit.0 + 1);
    let pred = || Predicate::new(type_scope(unit, x), Cond::True, Delivery::Each(vec![]));
    let y = FieldId(1);
    let nothing: Body = Box::new(|_, _| {});
    let e = rt.register_calculation("a", later, pred(), &vec![y], nothing);
    assert!(e == Err(RegisterError::NoSuchType(later)));
    let body: Body = Box::new(|ctx, _| ctx.destroy_self());
    let c = rt.register_calculation("a", later, pred(), &vec![], body).unwrap();
    assert_eq!(c, CalcId(0));
    let u = rt.spawn(unit, vec![]);
    rt.debug_write(u, x, Value::Int(1));
    rt.step();
    assert_eq!(rt.profile().triggers(c), 0);
    assert!(ty(&mut rt, "Later", vec![]) == later);
    let l = rt.spawn(later, vec![]);
    rt.debug_write(u, x, Value::Int(2));
    rt.step();
    assert_eq!(rt.profile().triggers(c), 1);
    assert_eq!(rt.alive(later), vec![]);
    assert!(rt.read(l, FieldId(FIELD_ALIVE)) == Value::Null);
}

#[test]
fn a_write_is_delivered_once_per_atom() {
    let mut rt = empty();
    let unit = ty(&mut rt, "Unit", vec![FieldDef::new("x", Value::Int(0))]);
    let log = rt.register_entity_type(
        "Log",
        vec![FieldDef::new("rows", Value::Int(0)), FieldDef::new("sum", Value::Float(n(0.0)))],
        true,
    );
    let x = f(&rt, unit, "x");
    let (rows, sum) = (f(&rt, log, "rows"), f(&rt, log, "sum"));
    let twice = || Scope::Or(Box::new(type_scope(unit, x)), Box::new(type_scope(unit, x)));
    let body: Body =
        Box::new(move |ctx, input| ctx.write(rows, Value::Int(input.rows().len() as i64)));
    let pred = Predicate::new(twice(), Cond::True, Delivery::Batch(vec![Proj::New(vec![])]));
    rt.register_calculation("rows", log, pred, &vec![rows], body).unwrap();
    let body: Body = Box::new(move |ctx, input| ctx.write(sum, input.agg().clone()));
    let pred = Predicate::new(twice(), Cond::True, Delivery::Fold(FoldOp::Sum));
    rt.register_calculation("sum", log, pred, &vec![sum], body).unwrap();
    let book = rt.alive(log)[0];
    let u = rt.spawn(unit, vec![]);
    let v = rt.spawn(unit, vec![]);
    rt.debug_write(u, x, Value::Int(3));
    rt.debug_write(v, x, Value::Int(4));
    rt.debug_write(v, x, Value::Int(4));
    rt.step();
    assert!(rt.read(book, rows) == Value::Int(3));
    assert!(rt.read(book, sum) == Value::Float(n(7.0)));
}

#[test]
fn counts_of_triggers_follow_the_schedule() {
    let (mut rt, us, x, _) = busy();
    for k in 0..5 {
        rt.debug_write(us[0], x, Value::Int(k));
        let calcs: Vec<CalcId> = (0..4).map(CalcId).collect();
        let before: Vec<u64> = calcs.iter().map(|c| rt.profile().triggers(*c)).collect();
        rt.step();
        for (c, n) in calcs.iter().zip(before) {
            let more: usize = rt
                .last_schedule()
                .groups
                .iter()
                .filter(|g| g.calc == *c)
                .map(|g| g.count)
                .sum();
            assert_eq!(rt.profile().triggers(*c), n + more as u64);
        }
    }
    assert_eq!(rt.profile().triggers(CalcId(99)), 0);
}

#[test]
fn stable_rows_leave_holes_and_compact_rows_close_them() {
    let mut rt = empty();
    let stable = ty(&mut rt, "Stable", vec![]);
    let compact =
        rt.register_entity_type_with("Compact", vec![], false, RowPolicy::Compact);
    let s: Vec<InstanceId> = (0..4).map(|_| rt.spawn(stable, vec![])).collect();
    let c: Vec<InstanceId> = (0..4).map(|_| rt.spawn(compact, vec![])).collect();
    assert_eq!(s.iter().map(|i| i.id).collect::<Vec<u32>>(), vec![0, 1, 2, 3]);
    rt.destroy(s[1]);
    rt.destroy(c[1]);
    assert_eq!(rt.alive(stable), vec![s[0], s[2], s[3]]);
    assert_eq!(rt.alive(compact), vec![c[0], c[3], c[2]]);
    let t = rt.spawn(stable, vec![]);
    let d = rt.spawn(compact, vec![]);
    assert!(t == InstanceId { ty: stable, id: 1, generation: 1 });
    assert!(d == InstanceId { ty: compact, id: 1, generation: 1 });
    assert_eq!(rt.alive(stable), vec![s[0], t, s[2], s[3]]);
    assert_eq!(rt.alive(compact), vec![c[0], c[3], c[2], d]);
}

#[test]
fn constants_are_told_apart() {
    let mut rt = empty();
    let unit = ty(
        &mut rt,
        "Unit",
        vec![FieldDef::new("state", Value::Null), FieldDef::new("hits", Value::Int(0))],
    );
    let (state, hits) = (f(&rt, unit, "state"), f(&rt, unit, "hits"));
    let words = ["walk", "wait", "run", ""];
    let mut calcs: Vec<CalcId> = vec![];
    for w in words {
        let body: Body = Box::new(|_, _| {});
        let pred = Predicate::new(
            type_scope(unit, state),
            Cond::Became(Value::str(w)),
            Delivery::Each(vec![]),
        );
        calcs.push(rt.register_calculation(w, unit, pred, &vec![], body).unwrap());
    }
    let u = rt.spawn(unit, vec![(hits, Value::Int(1))]);
    rt.step();
    for (k, w) in words.iter().enumerate() {
        rt.debug_write(u, state, Value::str(w));
        rt.step();
        for (j, c) in calcs.iter().enumerate() {
            assert_eq!(rt.profile().triggers(*c), if j <= k { 1 } else { 0 });
        }
    }
    assert_eq!(rt.profile().writes(unit, state), 4);
    assert_eq!(rt.profile().writes(unit, hits), 1);
}
