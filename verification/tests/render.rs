use pce::calculation::{Ctx, Input};
use pce::entity::{EntityTypeId, FieldDef, FieldId, InstanceId};
use pce::float64::F64;
use pce::predicate::{Cond, Dir, Expr, Proj, ValRef};
use pce::render::local::LocalError;
use pce::render::owners::ClaimError;
use pce::render::writes::Owner;
use pce::render::{
    Axes, CullShape, Elementary, Interp, Publisher, RFieldId, RenderBinding, RenderCtx,
    RenderError, RenderInput, RenderLocalCtx, RenderLocalFieldDef, RenderNoteKind, RenderRuntime,
    SimFrame, TrackedDelta,
};
use pce::runtime::engine::Runtime;
use pce::runtime::Detect;
use pce::value::Value;

type Body = Box<dyn Fn(&mut Ctx<'_>, &Input) + Send + Sync>;
type React = Box<dyn Fn(&mut RenderCtx<'_>, &RenderInput) + Send + Sync>;
type Tick = Box<dyn Fn(&mut RenderCtx<'_>) + Send + Sync>;
type LocalTick = Box<dyn Fn(&mut RenderLocalCtx<'_>) + Send + Sync>;
type Render = RenderRuntime<React, Tick, LocalTick>;

fn n(x: f64) -> F64 {
    F64 { bits: x.to_bits() }
}

fn g(x: F64) -> f64 {
    f64::from_bits(x.bits)
}

fn sin(x: F64) -> F64 {
    n(g(x).sin())
}

fn acos(x: F64) -> F64 {
    n(g(x).acos())
}

fn hypot(x: F64, y: F64) -> F64 {
    n(g(x).hypot(g(y)))
}

fn float(v: Value) -> f64 {
    g(v.as_f64().unwrap())
}

struct Scene {
    rt: Runtime<Body>,
    unit: EntityTypeId,
    hp: FieldId,
    pos: FieldId,
}

fn scene() -> Scene {
    let mut rt: Runtime<Body> = Runtime::new(Detect::Silent);
    let unit = rt.register_entity_type(
        "Unit",
        vec![
            FieldDef::new("hp", Value::Int(100)),
            FieldDef::new("pos", Value::vec3(n(0.0), n(0.0), n(0.0))),
        ],
        false,
    );
    rt.enable_render_feed();
    let hp = rt.field(unit, &"hp".to_string());
    let pos = rt.field(unit, &"pos".to_string());
    Scene { rt, unit, hp, pos }
}

#[test]
fn tracked_fields_are_interpolated_between_frames() {
    let math = Elementary { sin, acos, hypot };
    let mut sc = scene();
    let mut rr: Render = RenderRuntime::new(&sc.rt, Detect::Silent);
    let out = rr.track(sc.unit, sc.hp, Interp::Lerp).unwrap();
    let raw = rr.track(sc.unit, sc.hp, Interp::Snap).unwrap();
    let step = rr.track(sc.unit, sc.hp, Interp::Step).unwrap();
    let mut publisher = Publisher::new(rr.tracked_fields());
    let u = sc.rt.spawn(sc.unit, vec![]);
    sc.rt.step();
    publisher.publish(&sc.rt);
    rr.sync(&mut publisher, n(0.0), n(0.5), &math);
    assert!(rr.is_present(u));
    assert_eq!(float(rr.read(u, out)), 100.0);
    sc.rt.debug_write(u, sc.hp, Value::Int(60));
    sc.rt.step();
    publisher.publish(&sc.rt);
    rr.sync(&mut publisher, n(0.016), n(0.25), &math);
    assert_eq!(float(rr.read(u, out)), 90.0);
    assert!(rr.read(u, raw) == Value::Int(60));
    assert!(rr.read(u, step) == Value::Int(100));
    assert_eq!(rr.active_count(), 3);
    rr.render_frame(n(0.016), n(0.75), &math);
    assert_eq!(float(rr.read(u, out)), 70.0);
    rr.render_frame(n(0.016), n(9.0), &math);
    assert_eq!(g(rr.clock().alpha), 1.0);
    assert!(rr.read(u, step) == Value::Int(60));
    sc.rt.step();
    publisher.publish(&sc.rt);
    rr.sync(&mut publisher, n(0.016), n(0.0), &math);
    assert_eq!(rr.active_count(), 0);
    assert_eq!(float(rr.read(u, out)), 60.0);
    assert_eq!(rr.last_ingested(), sc.rt.frame());
}

#[test]
fn a_frame_is_taken_in_once() {
    let math = Elementary { sin, acos, hypot };
    let mut sc = scene();
    let mut rr: Render = RenderRuntime::new(&sc.rt, Detect::Silent);
    let publisher = Publisher::new(rr.tracked_fields());
    let u = sc.rt.spawn(sc.unit, vec![]);
    sc.rt.step();
    let frame = publisher.frame_of(sc.rt.frame(), sc.rt.committed_writes());
    assert!(rr.can_ingest(&frame));
    rr.ingest(&frame, &math);
    assert!(rr.is_present(u));
    let mut again = SimFrame::default();
    again.sim_frame = frame.sim_frame;
    again.deaths.push(u);
    rr.ingest(&again, &math);
    assert!(rr.is_present(u));
    again.births.push(InstanceId { ty: EntityTypeId(99), id: 0, generation: 0 });
    assert!(!rr.can_ingest(&again));
    assert!(rr.ingest(&again, &math).is_empty());
    assert_eq!(rr.last_ingested(), frame.sim_frame);
}

#[test]
fn rotations_take_the_short_way() {
    let math = Elementary { sin, acos, hypot };
    let h = 0.5f64.sqrt();
    let a = Value::quat(n(0.0), n(0.0), n(0.0), n(1.0));
    let b = Value::quat(n(0.0), n(0.0), n(-h), n(-h));
    let r = Interp::Slerp.sample(&a, &b, n(0.5), &math).as_quat().unwrap();
    let angle = 45.0f64.to_radians() / 2.0;
    assert!((g(r[2]) - angle.sin()).abs() < 1e-12);
    assert!((g(r[3]) - angle.cos()).abs() < 1e-12);
    let none = Value::quat(n(0.0), n(0.0), n(0.0), n(0.0));
    let r = Interp::Slerp.sample(&none, &none, n(0.5), &math).as_quat().unwrap();
    assert_eq!((g(r[0]), g(r[3])), (0.0, 1.0));
    let r = Interp::Slerp.sample(&none, &b, n(0.1), &math).as_quat().unwrap();
    assert!((g(r[3]) + h).abs() < 1e-12);
    let near = Value::quat(n(0.0), n(0.0), n(1e-6), n(1.0));
    let r = Interp::Slerp.sample(&a, &near, n(0.5), &math).as_quat().unwrap();
    assert!((g(r[2]) - 0.5e-6).abs() < 1e-12);
    assert!(Interp::Lerp.sample(&a, &b, n(0.5), &math) == b);
    assert!(Interp::Vec3Lerp.sample(&Value::Null, &Value::Int(3), n(0.5), &math) == Value::Int(3));
}

#[test]
fn vectors_are_interpolated_by_component() {
    let math = Elementary { sin, acos, hypot };
    let a = Value::vec3(n(0.0), n(10.0), n(-4.0));
    let b = Value::vec3(n(2.0), n(20.0), n(4.0));
    let r = Interp::Vec3Lerp.sample(&a, &b, n(0.25), &math).as_vec3().unwrap();
    assert_eq!((g(r[0]), g(r[1]), g(r[2])), (0.5, 12.5, -2.0));
    assert!(Interp::Vec3Lerp.out_default(&Value::Null) == Value::vec3(n(0.0), n(0.0), n(0.0)));
    assert!(Interp::Vec3Lerp.out_default(&b) == b);
    assert!(Interp::Lerp.out_default(&Value::Int(3)) == Value::Float(n(3.0)));
    assert!(Interp::Snap.out_default(&Value::str("a")) == Value::str("a"));
}

#[test]
fn the_dead_fade_by_time() {
    let math = Elementary { sin, acos, hypot };
    let mut sc = scene();
    let mut rr: Render = RenderRuntime::new(&sc.rt, Detect::Silent);
    let fade = rr.add_render_field(sc.unit, Value::Float(n(1.0)));
    rr.set_death_fade(sc.unit, fade, n(2.0)).unwrap();
    let mut b = RenderBinding::default();
    b.fade = Some(fade);
    rr.renderable(sc.unit, b).unwrap();
    let mut publisher = Publisher::new(rr.tracked_fields());
    let u = sc.rt.spawn(sc.unit, vec![]);
    sc.rt.step();
    publisher.publish(&sc.rt);
    rr.sync(&mut publisher, n(0.0), n(0.0), &math);
    assert_eq!(rr.submit().len(), 1);
    sc.rt.destroy(u);
    sc.rt.step();
    publisher.publish(&sc.rt);
    rr.sync(&mut publisher, n(0.5), n(0.0), &math);
    assert!(rr.is_present(u));
    assert_eq!(rr.dying_count(), 1);
    assert_eq!(float(rr.read(u, fade)), 0.75);
    assert_eq!(g(rr.submit().packets[0].fade), 0.75);
    rr.render_frame(n(-3.0), n(0.0), &math);
    assert_eq!(float(rr.read(u, fade)), 0.75);
    rr.render_frame(n(1.5), n(0.0), &math);
    assert!(!rr.is_present(u));
    assert_eq!(rr.dying_count(), 0);
    assert!(rr.submit().is_empty());
}

#[test]
fn without_fading_the_dead_leave_at_once() {
    let math = Elementary { sin, acos, hypot };
    let mut sc = scene();
    let mut rr: Render = RenderRuntime::new(&sc.rt, Detect::Silent);
    let mut publisher = Publisher::new(rr.tracked_fields());
    let u = sc.rt.spawn(sc.unit, vec![]);
    sc.rt.step();
    publisher.publish(&sc.rt);
    sc.rt.destroy(u);
    sc.rt.step();
    publisher.publish(&sc.rt);
    assert_eq!(publisher.queue.len(), 2);
    rr.sync(&mut publisher, n(0.1), n(0.0), &math);
    assert!(publisher.queue.is_empty());
    assert!(!rr.is_present(u));
}

#[test]
fn reactions_run_on_the_writes_of_a_frame() {
    let math = Elementary { sin, acos, hypot };
    let mut sc = scene();
    let mut rr: Render = RenderRuntime::new(&sc.rt, Detect::Silent);
    let spark = rr.add_render_field(sc.unit, Value::Float(n(0.0)));
    let cond = Cond::Crossed(Expr::Val(ValRef::Const(Value::Int(50))), Dir::Down);
    let f: React = Box::new(move |ctx, input| {
        let v = input.arg(0).clone();
        ctx.write(spark, v);
    });
    rr.reaction("spark", sc.unit, sc.hp, cond, vec![Proj::Old(vec![])], false, vec![spark], f)
        .unwrap();
    let seen = rr.add_render_field(sc.unit, Value::Int(0));
    let f: React = Box::new(move |ctx, input| {
        ctx.write(seen, Value::Int(input.rows().len() as i64));
    });
    rr.reaction("count", sc.unit, sc.hp, Cond::True, vec![], true, vec![seen], f).unwrap();
    let mut publisher = Publisher::new(rr.tracked_fields());
    let u = sc.rt.spawn(sc.unit, vec![]);
    sc.rt.step();
    publisher.publish(&sc.rt);
    sc.rt.debug_write(u, sc.hp, Value::Int(40));
    sc.rt.step();
    publisher.publish(&sc.rt);
    let notes = rr.sync(&mut publisher, n(0.0), n(0.0), &math);
    assert!(notes.is_empty());
    assert!(rr.read(u, spark) == Value::Int(100));
    assert!(rr.read(u, seen) == Value::Int(1));
}

#[test]
fn reactions_may_read_the_write_alone() {
    let sc = scene();
    let mut rr: Render = RenderRuntime::new(&sc.rt, Detect::Silent);
    let f: React = Box::new(|_, _| {});
    let cond = Cond::Crossed(Expr::Val(ValRef::Own(sc.hp)), Dir::Down);
    let r = rr.reaction("a", sc.unit, sc.hp, cond, vec![], false, vec![], f);
    assert!(r == Err(RenderError::Cond));
    let f: React = Box::new(|_, _| {});
    let r = rr.reaction("a", sc.unit, sc.hp, Cond::True, vec![Proj::Own(sc.hp)], false, vec![], f);
    assert!(r == Err(RenderError::Proj));
}

#[test]
fn a_render_field_has_one_writer() {
    let sc = scene();
    let mut rr: Render = RenderRuntime::new(&sc.rt, Detect::Silent);
    let out = rr.track(sc.unit, sc.hp, Interp::Snap).unwrap();
    let f: Tick = Box::new(|_| {});
    let r = rr.continuous("a", sc.unit, vec![out], f);
    assert!(r == Err(RenderError::Claim(ClaimError::Owned(sc.unit, out, Owner::Track(0)))));
    let free = rr.add_render_field(sc.unit, Value::Null);
    let f: Tick = Box::new(|_| {});
    let r = rr.continuous("a", sc.unit, vec![free, free], f);
    assert!(r == Err(RenderError::Claim(ClaimError::Twice(sc.unit, free))));
    let f: Tick = Box::new(|_| {});
    let r = rr.continuous("a", sc.unit, vec![RFieldId(99)], f);
    assert!(r == Err(RenderError::Claim(ClaimError::NoSuchField(sc.unit, RFieldId(99)))));
    assert!(rr.set_death_fade(sc.unit, free, n(0.0)) == Err(RenderError::BadDuration));
    assert!(rr.set_death_fade(sc.unit, RFieldId(99), n(1.0))
        == Err(RenderError::NoSuchField(sc.unit, RFieldId(99))));
    rr.set_death_fade(sc.unit, free, n(1.0)).unwrap();
    assert!(rr.set_death_fade(sc.unit, out, n(1.0)) == Err(RenderError::AlreadyFading(sc.unit)));
}

#[test]
fn bindings_are_checked() {
    let sc = scene();
    let mut rr: Render = RenderRuntime::new(&sc.rt, Detect::Silent);
    let a = rr.add_render_field(sc.unit, Value::Null);
    let mut b = RenderBinding::default();
    b.scale = Some(RFieldId(7));
    assert!(rr.renderable(sc.unit, b) == Err(RenderError::BindingField(2, RFieldId(7))));
    b.scale = Some(a);
    b.fade = Some(a);
    assert!(rr.renderable(sc.unit, b) == Err(RenderError::BindingTwice(a)));
    b.fade = None;
    rr.renderable(sc.unit, b).unwrap();
    assert!(rr.renderable(sc.unit, b) == Err(RenderError::AlreadyRenderable(sc.unit)));
    let nowhere = EntityTypeId(99);
    assert!(rr.renderable(nowhere, b) == Err(RenderError::NoSuchType(nowhere)));
}

#[test]
fn continuous_calculations_read_the_frame_before_them() {
    let math = Elementary { sin, acos, hypot };
    let mut sc = scene();
    let mut rr: Render = RenderRuntime::new(&sc.rt, Detect::Silent);
    let x = rr.add_render_field(sc.unit, Value::Int(1));
    let f: Tick = Box::new(move |ctx| {
        let me = ctx.self_id();
        let other = InstanceId { ty: me.ty, id: 1 - me.id, generation: 0 };
        let sum = ctx.read(x).as_i64().unwrap() + ctx.read_of(other, x).as_i64().unwrap();
        ctx.write(x, Value::Int(sum + me.id as i64));
    });
    rr.continuous("sum", sc.unit, vec![x], f).unwrap();
    let mut publisher = Publisher::new(rr.tracked_fields());
    let a = sc.rt.spawn(sc.unit, vec![]);
    let b = sc.rt.spawn(sc.unit, vec![]);
    sc.rt.step();
    publisher.publish(&sc.rt);
    rr.sync(&mut publisher, n(0.0), n(0.0), &math);
    assert!(rr.read(a, x) == Value::Int(2));
    assert!(rr.read(b, x) == Value::Int(3));
    rr.render_frame(n(0.0), n(0.0), &math);
    assert!(rr.read(a, x) == Value::Int(5));
    assert!(rr.read(b, x) == Value::Int(6));
}

#[test]
fn writes_against_declarations_are_noted() {
    let math = Elementary { sin, acos, hypot };
    let mut sc = scene();
    let mut rr: Render = RenderRuntime::new(&sc.rt, Detect::Silent);
    let x = rr.add_render_field(sc.unit, Value::Int(1));
    let y = rr.add_render_field(sc.unit, Value::Int(1));
    let f: Tick = Box::new(move |ctx| {
        ctx.write(x, Value::Int(2));
        ctx.write(y, Value::Int(2));
        ctx.write(x, Value::Int(3));
    });
    rr.continuous("bad", sc.unit, vec![x], f).unwrap();
    let mut publisher = Publisher::new(rr.tracked_fields());
    let a = sc.rt.spawn(sc.unit, vec![]);
    sc.rt.step();
    publisher.publish(&sc.rt);
    let notes = rr.sync(&mut publisher, n(0.0), n(0.0), &math);
    assert_eq!(notes.len(), 2);
    assert!(notes[0].kind == RenderNoteKind::UndeclaredWrite(y));
    assert!(notes[1].kind == RenderNoteKind::Conflict(x));
    assert!(rr.read(a, x) == Value::Int(3));
    assert!(rr.read(a, y) == Value::Int(1));
}

#[test]
fn only_what_is_in_view_is_drawn() {
    let math = Elementary { sin, acos, hypot };
    let mut sc = scene();
    let mut rr: Render = RenderRuntime::new(&sc.rt, Detect::Silent);
    let at = rr.track(sc.unit, sc.pos, Interp::Vec3Lerp).unwrap();
    let dist = rr.add_render_field(sc.unit, Value::Null);
    rr.renderable(sc.unit, RenderBinding::default()).unwrap();
    let r = rr.cull_type(sc.unit, sc.pos, Some(dist));
    assert!(r == Err(RenderError::NotCulling));
    let camera = InstanceId { ty: sc.unit, id: 0, generation: 0 };
    let shape = CullShape::Radius(n(5.0));
    assert!(rr.enable_culling(n(0.0), Axes::XZ, camera, at, shape)
        == Err(RenderError::BadCellSize));
    assert!(rr.enable_culling(n(10.0), Axes::XZ, camera, at, CullShape::Radius(n(-1.0)))
        == Err(RenderError::BadShape));
    rr.enable_culling(n(10.0), Axes::XZ, camera, at, shape).unwrap();
    assert!(rr.enable_culling(n(10.0), Axes::XZ, camera, at, shape)
        == Err(RenderError::AlreadyCulling));
    assert!(rr.cull_type(sc.unit, sc.hp, None) == Err(RenderError::NotTracked(sc.unit, sc.hp)));
    rr.cull_type(sc.unit, sc.pos, Some(dist)).unwrap();
    assert!(rr.cull_type(sc.unit, sc.pos, None) == Err(RenderError::AlreadyCulled(sc.unit)));
    let mut publisher = Publisher::new(rr.tracked_fields());
    let a = sc.rt.spawn(sc.unit, vec![]);
    let b = sc.rt.spawn(sc.unit, vec![(sc.pos, Value::vec3(n(3.0), n(50.0), n(4.0)))]);
    let c = sc.rt.spawn(sc.unit, vec![(sc.pos, Value::vec3(n(3.0), n(0.0), n(4.1)))]);
    sc.rt.step();
    publisher.publish(&sc.rt);
    rr.sync(&mut publisher, n(0.0), n(1.0), &math);
    let drawn: Vec<InstanceId> = rr.submit().packets.iter().map(|p| p.inst).collect();
    assert_eq!(drawn, vec![a, b]);
    assert_eq!(float(rr.read(b, dist)), 5.0);
    assert!(rr.read(c, dist) == Value::Null);
    sc.rt.debug_write(c, sc.pos, Value::vec3(n(1.0), n(0.0), n(0.0)));
    sc.rt.step();
    publisher.publish(&sc.rt);
    rr.sync(&mut publisher, n(0.0), n(1.0), &math);
    assert_eq!(rr.submit().len(), 3);
    sc.rt.destroy(a);
    sc.rt.step();
    publisher.publish(&sc.rt);
    rr.sync(&mut publisher, n(0.0), n(1.0), &math);
    assert_eq!(rr.submit().len(), 2);
}

#[test]
fn local_entities_come_and_go_on_the_render_side() {
    let math = Elementary { sin, acos, hypot };
    let mut sc = scene();
    let mut rr: Render = RenderRuntime::new(&sc.rt, Detect::Silent);
    let text = rr.register_local_type(
        "Text",
        vec![
            RenderLocalFieldDef::new("age", Value::Int(0)),
            RenderLocalFieldDef::new("what", Value::Null),
        ],
    );
    let age = rr.local_field(text, "age").unwrap();
    let what = rr.local_field(text, "what").unwrap();
    assert!(rr.local_field(text, "none").is_err());
    let f: LocalTick = Box::new(move |ctx| {
        let a = ctx.read(age).as_i64().unwrap() + 1;
        ctx.write(age, Value::Int(a));
        if a == 2 {
            ctx.destroy_self();
        }
    });
    rr.local_continuous("age", text, vec![age], f).unwrap();
    let mut b = RenderBinding::default();
    b.mesh = Some(what);
    rr.local_renderable(text, b).unwrap();
    assert!(rr.local_renderable(text, b) == Err(LocalError::AlreadyRenderable(text)));
    let again: LocalTick = Box::new(|_| {});
    let r = rr.local_continuous("again", text, vec![age], again);
    assert!(r == Err(LocalError::Owned(text, age)));
    let f: React = Box::new(move |ctx, input| {
        ctx.spawn_local(text, vec![(what, input.arg(0).clone())]);
        ctx.spawn_local(text, vec![(RFieldId(9), Value::Null)]);
    });
    rr.reaction("hit", sc.unit, sc.hp, Cond::Changed, vec![Proj::New(vec![])], false, vec![], f)
        .unwrap();
    let mut publisher = Publisher::new(rr.tracked_fields());
    let u = sc.rt.spawn(sc.unit, vec![]);
    sc.rt.step();
    publisher.publish(&sc.rt);
    sc.rt.debug_write(u, sc.hp, Value::Int(9));
    sc.rt.step();
    publisher.publish(&sc.rt);
    let notes = rr.sync(&mut publisher, n(0.0), n(0.0), &math);
    assert_eq!(notes.len(), 1);
    assert!(matches!(notes[0].kind, RenderNoteKind::Local(_)));
    assert_eq!(rr.local_count(text), 1);
    let view = rr.submit_local();
    assert_eq!(view.len(), 1);
    assert!(view.packets[0].mesh == Value::Int(9));
    let id = view.packets[0].local;
    assert!(rr.read_local(id, age) == Value::Int(1));
    rr.render_frame(n(0.0), n(0.0), &math);
    assert_eq!(rr.local_count(text), 0);
    assert!(rr.read_local(id, age) == Value::Null);
}

#[test]
fn a_frame_coalesces_the_changes_of_a_cell() {
    let mut sc = scene();
    let publisher = Publisher::new(vec![(sc.unit, sc.hp)]);
    let u = sc.rt.spawn(sc.unit, vec![]);
    sc.rt.step();
    sc.rt.debug_write(u, sc.hp, Value::Int(90));
    sc.rt.debug_write(u, sc.hp, Value::Int(80));
    sc.rt.step();
    let f = publisher.frame_of(sc.rt.frame(), sc.rt.committed_writes());
    assert_eq!(f.changes.len(), 1);
    assert!(f.changes[0].old == Value::Int(100));
    assert!(f.changes[0].new == Value::Int(80));
    assert!(f.births.is_empty() && f.deaths.is_empty());
}

#[test]
fn ids_of_local_entities_are_used_again() {
    let math = Elementary { sin, acos, hypot };
    let sc = scene();
    let mut rr: Render = RenderRuntime::new(&sc.rt, Detect::Silent);
    let particle = rr.register_local_type(
        "Particle",
        vec![
            RenderLocalFieldDef::new("ttl", Value::Float(n(0.0))),
            RenderLocalFieldDef::new("fade", Value::Float(n(1.0))),
        ],
    );
    let ttl = rr.local_field(particle, "ttl").unwrap();
    let fade = rr.local_field(particle, "fade").unwrap();
    let f: LocalTick = Box::new(move |ctx| {
        let left = ctx.read(ttl).as_f64().unwrap().sub(ctx.dt());
        ctx.write(ttl, Value::Float(left));
        ctx.write(fade, Value::Float(left.div(n(0.5))));
        if left.le(n(0.0)) {
            ctx.destroy_self();
        }
    });
    rr.local_continuous("tick", particle, vec![ttl, fade], f).unwrap();
    let mut b = RenderBinding::default();
    b.fade = Some(fade);
    rr.local_renderable(particle, b).unwrap();
    let mut handles = vec![];
    for i in 0..5 {
        let life = Value::Float(n(0.20 + 0.10 * i as f64));
        handles.push(rr.spawn_local(particle, vec![(ttl, life)]).unwrap());
    }
    assert_eq!(rr.local_count(particle), 5);
    let mut frames = 0;
    while rr.local_count(particle) > 0 && frames < 30 {
        frames += 1;
        rr.render_frame(n(0.05), n(1.0), &math);
    }
    assert_eq!(rr.local_count(particle), 0);
    assert!(rr.submit_local().is_empty());
    assert!(!rr.is_local_present(handles[0]));
    let reused = rr.spawn_local(particle, vec![(ttl, Value::Float(n(1.0)))]).unwrap();
    assert!(reused.id < 5);
    let prior = handles[reused.id as usize];
    assert_ne!(reused, prior);
    assert!(!rr.is_local_present(prior));
    assert!(rr.is_local_present(reused));
    let nowhere = pce::render::RenderLocalTypeId(9);
    assert!(rr.spawn_local(nowhere, vec![]) == Err(LocalError::NoSuchType(nowhere)));
    assert!(rr.spawn_local(particle, vec![(RFieldId(7), Value::Null)])
        == Err(LocalError::NoSuchField(particle, RFieldId(7))));
}

#[test]
fn damping_by_time_does_not_depend_on_the_frame_rate() {
    let math = Elementary { sin, acos, hypot };
    let mut ends = vec![];
    for frames in [1, 10, 200] {
        let mut sc = scene();
        let mut rr: Render = RenderRuntime::new(&sc.rt, Detect::Silent);
        let x = rr.add_render_field(sc.unit, Value::Float(n(0.0)));
        let f: Tick = Box::new(move |ctx| {
            let at = g(ctx.read(x).as_f64().unwrap());
            let step = (100.0 - at) * (1.0 - (-2.0 * g(ctx.dt())).exp());
            ctx.write(x, Value::Float(n(at + step)));
        });
        rr.continuous("damp", sc.unit, vec![x], f).unwrap();
        let publisher = Publisher::new(rr.tracked_fields());
        let u = sc.rt.spawn(sc.unit, vec![]);
        sc.rt.step();
        rr.ingest(&publisher.frame_of(sc.rt.frame(), sc.rt.committed_writes()), &math);
        for _ in 0..frames {
            rr.render_frame(n(1.0 / frames as f64), n(1.0), &math);
        }
        ends.push(float(rr.read(u, x)));
    }
    for e in &ends {
        assert!((e - 100.0 * (1.0 - (-2.0f64).exp())).abs() < 1e-9);
    }
}

#[test]
fn a_new_holder_of_an_id_starts_afresh() {
    let math = Elementary { sin, acos, hypot };
    let mut sc = scene();
    let mut rr: Render = RenderRuntime::new(&sc.rt, Detect::Silent);
    let out = rr.track(sc.unit, sc.hp, Interp::Snap).unwrap();
    let fade = rr.add_render_field(sc.unit, Value::Float(n(1.0)));
    rr.set_death_fade(sc.unit, fade, n(10.0)).unwrap();
    let mut publisher = Publisher::new(rr.tracked_fields());
    let a = sc.rt.spawn(sc.unit, vec![(sc.hp, Value::Int(7))]);
    sc.rt.step();
    publisher.publish(&sc.rt);
    sc.rt.destroy(a);
    sc.rt.step();
    publisher.publish(&sc.rt);
    rr.sync(&mut publisher, n(1.0), n(1.0), &math);
    assert!(rr.is_present(a));
    let b = sc.rt.spawn(sc.unit, vec![]);
    assert_eq!(b.id, a.id);
    sc.rt.step();
    publisher.publish(&sc.rt);
    rr.sync(&mut publisher, n(1.0), n(1.0), &math);
    assert!(!rr.is_present(a));
    assert!(rr.is_present(b));
    assert_eq!(rr.dying_count(), 0);
    assert!(rr.read(b, out) == Value::Int(100));
    assert_eq!(float(rr.read(b, fade)), 1.0);
    assert!(rr.read(a, out) == Value::Null);
}

#[test]
fn what_moved_comes_to_rest_at_its_last_value() {
    let math = Elementary { sin, acos, hypot };
    let mut rt: Runtime<Body> = Runtime::new(Detect::Silent);
    let unit = rt.register_entity_type("U", vec![FieldDef::new("x", Value::Float(n(0.0)))], false);
    let x = rt.field(unit, &"x".to_string());
    let i = rt.spawn(unit, vec![]);
    let mut rr: Render = RenderRuntime::new(&rt, Detect::Silent);
    let a = rr.track(unit, x, Interp::Lerp).unwrap();
    let b = rr.track(unit, x, Interp::Snap).unwrap();
    let mut born = SimFrame::default();
    born.sim_frame = 1;
    born.births.push(i);
    rr.ingest(&born, &math);
    let mut moved = SimFrame::default();
    moved.sim_frame = 2;
    moved.changes.push(TrackedDelta {
        inst: i,
        sim_field: x,
        old: Value::Float(n(0.0)),
        new: Value::Float(n(10.0)),
    });
    rr.ingest(&moved, &math);
    assert_eq!(rr.active_count(), 2);
    let mut quiet = SimFrame::default();
    quiet.sim_frame = 3;
    rr.ingest(&quiet, &math);
    assert!(rr.read(i, a) == Value::Float(n(10.0)));
    assert!(rr.read(i, b) == Value::Float(n(10.0)));
    assert_eq!(rr.active_count(), 0);
    assert_eq!(rr.last_ingested(), 3);
}
