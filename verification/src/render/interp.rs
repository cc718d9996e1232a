//! Interpolation of tracked fields between two simulation frames.
use crate::entity::EntityTypeId;
use crate::entity::FieldId;
use crate::float64::of_int;
use crate::float64::F64;
use crate::render::clock::to_unit;
use crate::render::clock::unit;
use crate::render::store::RFieldId;
use crate::value::Val;
use crate::value::Value;
use vstd::prelude::*;

verus! {

/// The bits of `0.9995`: above this cosine two directions count as parallel.
pub const PARALLEL_BITS: u64 = 0x3FEFFBE76C8B4396;

/// The bits of `1e-12`: below this length a quaternion counts as none.
pub const TINY_BITS: u64 = 0x3D719799812DEA11;

/// The functions of real numbers that the render side takes from its host.
pub struct Elementary<S, A, H> {
    pub sin: S,
    pub acos: A,
    pub hypot: H,
}

impl<S, A, H> Elementary<S, A, H> where
    S: Fn(F64) -> F64,
    A: Fn(F64) -> F64,
    H: Fn(F64, F64) -> F64,
 {
    /// Every argument is accepted.
    pub open spec fn total(self) -> bool {
        &&& forall|x: F64| #[trigger] self.sin.requires((x,))
        &&& forall|x: F64| #[trigger] self.acos.requires((x,))
        &&& forall|x: F64, y: F64| #[trigger] self.hypot.requires((x, y))
    }
}

/// A quaternion, in the order x, y, z, w.
#[derive(Clone, Copy, Debug)]
pub struct Quat {
    pub x: F64,
    pub y: F64,
    pub z: F64,
    pub w: F64,
}

impl Quat {
    pub open spec fn val(self) -> Val {
        Val::Quat(self.x, self.y, self.z, self.w)
    }

    pub open spec fn of(v: Val) -> Quat {
        Quat { x: v->Quat_0, y: v->Quat_1, z: v->Quat_2, w: v->Quat_3 }
    }

    pub open spec fn one() -> Quat {
        Quat { x: of_int(0), y: of_int(0), z: of_int(0), w: of_int(1) }
    }

    pub open spec fn dot_spec(self, o: Quat) -> F64 {
        self.x.mul_spec(o.x).add_spec(self.y.mul_spec(o.y)).add_spec(
            self.z.mul_spec(o.z),
        ).add_spec(self.w.mul_spec(o.w))
    }

    pub open spec fn length_spec(self) -> F64 {
        self.dot_spec(self).sqrt_spec()
    }

    pub open spec fn neg_spec(self) -> Quat {
        Quat {
            x: self.x.neg_spec(),
            y: self.y.neg_spec(),
            z: self.z.neg_spec(),
            w: self.w.neg_spec(),
        }
    }

    /// The quaternion of length one in this direction, if it has a direction.
    pub open spec fn normalized(self) -> Option<Quat> {
        let len = self.length_spec();
        if !(self.x.finite() && self.y.finite() && self.z.finite() && self.w.finite()) || len.flt(
            F64 { bits: TINY_BITS },
        ) {
            None
        } else {
            Some(
                Quat {
                    x: self.x.div_spec(len),
                    y: self.y.div_spec(len),
                    z: self.z.div_spec(len),
                    w: self.w.div_spec(len),
                },
            )
        }
    }

    /// Component by component, on the line to `o`.
    pub open spec fn towards_spec(self, o: Quat, t: F64) -> Quat {
        Quat {
            x: line(self.x, o.x, t),
            y: line(self.y, o.y, t),
            z: line(self.z, o.z, t),
            w: line(self.w, o.w, t),
        }
    }

    /// The sum of the two, weighted.
    pub open spec fn weighted_spec(self, o: Quat, s: F64, t: F64) -> Quat {
        Quat {
            x: self.x.mul_spec(s).add_spec(o.x.mul_spec(t)),
            y: self.y.mul_spec(s).add_spec(o.y.mul_spec(t)),
            z: self.z.mul_spec(s).add_spec(o.z.mul_spec(t)),
            w: self.w.mul_spec(s).add_spec(o.w.mul_spec(t)),
        }
    }

    pub fn identity() -> (r: Quat)
        ensures
            r == Quat::one(),
    {
        let zero = F64::from_i64(0);
        Quat { x: zero, y: zero, z: zero, w: F64::from_i64(1) }
    }

    pub fn dot(self, o: Quat) -> (r: F64)
        ensures
            r == self.dot_spec(o),
    {
        self.x.mul(o.x).add(self.y.mul(o.y)).add(self.z.mul(o.z)).add(self.w.mul(o.w))
    }

    pub fn neg(self) -> (r: Quat)
        ensures
            r == self.neg_spec(),
    {
        Quat { x: self.x.neg(), y: self.y.neg(), z: self.z.neg(), w: self.w.neg() }
    }

    pub fn normalize(self) -> (r: Option<Quat>)
        ensures
            r == self.normalized(),
    {
        if !(self.x.is_finite() && self.y.is_finite() && self.z.is_finite() && self.w.is_finite()) {
            return None;
        }
        let len = self.dot(self).sqrt();
        if len.lt(F64 { bits: TINY_BITS }) {
            None
        } else {
            Some(
                Quat {
                    x: self.x.div(len),
                    y: self.y.div(len),
                    z: self.z.div(len),
                    w: self.w.div(len),
                },
            )
        }
    }

    pub fn towards(self, o: Quat, t: F64) -> (r: Quat)
        ensures
            r == self.towards_spec(o, t),
    {
        Quat {
            x: lerp(self.x, o.x, t),
            y: lerp(self.y, o.y, t),
            z: lerp(self.z, o.z, t),
            w: lerp(self.w, o.w, t),
        }
    }

    pub fn weighted(self, o: Quat, s: F64, t: F64) -> (r: Quat)
        ensures
            r == self.weighted_spec(o, s, t),
    {
        Quat {
            x: self.x.mul(s).add(o.x.mul(t)),
            y: self.y.mul(s).add(o.y.mul(t)),
            z: self.z.mul(s).add(o.z.mul(t)),
            w: self.w.mul(s).add(o.w.mul(t)),
        }
    }
}

/// `p + (c - p) * t`.
pub open spec fn line(p: F64, c: F64, t: F64) -> F64 {
    p.add_spec(c.sub_spec(p).mul_spec(t))
}

pub fn lerp(p: F64, c: F64, t: F64) -> (r: F64)
    ensures
        r == line(p, c, t),
{
    p.add(c.sub(p).mul(t))
}

/// How to turn from one rotation to another.
#[derive(Clone, Copy, Debug)]
pub enum Turn {
    /// The rotation itself.
    Settled(Quat),
    /// A point on the arc between two unit quaternions whose cosine is not negative.
    Arc(Quat, Quat, F64),
}

/// The turn from `p` to `c` at `t`, the short way round. What has no direction gives way to
/// the other end; directions that are nearly parallel are joined by a line.
pub open spec fn turn_of(p: Quat, c: Quat, t: F64) -> Turn {
    match (p.normalized(), c.normalized()) {
        (None, None) => Turn::Settled(Quat::one()),
        (None, Some(c)) => Turn::Settled(c),
        (Some(p), None) => Turn::Settled(p),
        (Some(p), Some(c)) => {
            let far = p.dot_spec(c).flt(of_int(0));
            let end = if far {
                c.neg_spec()
            } else {
                c
            };
            let dot = if far {
                p.dot_spec(c).neg_spec()
            } else {
                p.dot_spec(c)
            };
            if (F64 { bits: PARALLEL_BITS }).flt(dot) {
                match p.towards_spec(end, t).normalized() {
                    Some(q) => Turn::Settled(q),
                    None => Turn::Settled(Quat::one()),
                }
            } else {
                Turn::Arc(p, end, dot)
            }
        },
    }
}

pub fn turn(p: Quat, c: Quat, t: F64) -> (r: Turn)
    ensures
        r == turn_of(p, c, t),
{
    let start = match p.normalize() {
        Some(q) => q,
        None => {
            return match c.normalize() {
                Some(q) => Turn::Settled(q),
                None => Turn::Settled(Quat::identity()),
            };
        },
    };
    let mut end = match c.normalize() {
        Some(q) => q,
        None => {
            return Turn::Settled(start);
        },
    };
    let mut dot = start.dot(end);
    if dot.lt(F64::from_i64(0)) {
        end = end.neg();
        dot = dot.neg();
    }
    if (F64 { bits: PARALLEL_BITS }).lt(dot) {
        return match start.towards(end, t).normalize() {
            Some(q) => Turn::Settled(q),
            None => Turn::Settled(Quat::identity()),
        };
    }
    Turn::Arc(start, end, dot)
}

/// The greatest cosine is one.
pub open spec fn cosine(dot: F64) -> F64 {
    if of_int(1).flt(dot) {
        of_int(1)
    } else if dot.flt(of_int(-1)) {
        of_int(-1)
    } else {
        dot
    }
}

/// The point at `t` on the arc between `p` and `c`, whose angle is `theta`, from the sines of
/// the angle and of its two parts.
pub open spec fn on_arc(p: Quat, c: Quat, whole: F64, left: F64, gone: F64) -> Quat {
    p.weighted_spec(c, left.div_spec(whole), gone.div_spec(whole))
}

pub fn arc_point(p: Quat, c: Quat, whole: F64, left: F64, gone: F64) -> (r: Quat)
    ensures
        r == on_arc(p, c, whole, left, gone),
{
    p.weighted(c, left.div(whole), gone.div(whole))
}

impl<S, A, H> Elementary<S, A, H> where
    S: Fn(F64) -> F64,
    A: Fn(F64) -> F64,
    H: Fn(F64, F64) -> F64,
 {
    /// `q` is the point at `t` on the arc between `p` and `c`.
    pub open spec fn arc_at(self, p: Quat, c: Quat, dot: F64, t: F64, q: Quat) -> bool {
        exists|theta: F64, whole: F64, left: F64, gone: F64| #[trigger]
            self.arc_by(dot, t, theta, whole, left, gone) && q == on_arc(p, c, whole, left, gone)
    }

    /// The angle of a cosine, and the sines of the angle and of its two parts.
    pub open spec fn arc_by(
        self,
        dot: F64,
        t: F64,
        theta: F64,
        whole: F64,
        left: F64,
        gone: F64,
    ) -> bool {
        &&& self.acos.ensures((cosine(dot),), theta)
        &&& self.sin.ensures((theta,), whole)
        &&& self.sin.ensures((of_int(1).sub_spec(t).mul_spec(theta),), left)
        &&& self.sin.ensures((t.mul_spec(theta),), gone)
    }

    /// `q` is the rotation at `t` from `p` to `c`.
    pub open spec fn turned(self, p: Quat, c: Quat, t: F64, q: Quat) -> bool {
        match turn_of(p, c, t) {
            Turn::Settled(s) => q == s,
            Turn::Arc(a, b, dot) => self.arc_at(a, b, dot, t, q),
        }
    }

    /// Spherical interpolation, the short way round.
    pub fn slerp(&self, p: Quat, c: Quat, t: F64) -> (r: Quat)
        requires
            self.total(),
        ensures
            self.turned(p, c, t, r),
            turn_of(p, c, t) is Arc ==> exists|theta: F64, whole: F64, left: F64, gone: F64|
                {
                    let a = turn_of(p, c, t)->Arc_0;
                    let b = turn_of(p, c, t)->Arc_1;
                    let s = left.div_spec(whole);
                    let g = gone.div_spec(whole);
                    &&& #[trigger] self.arc_by(
                        turn_of(p, c, t)->Arc_2,
                        t,
                        theta,
                        whole,
                        left,
                        gone,
                    )
                    &&& self.sin.ensures((theta,), whole)
                    &&& self.sin.ensures((of_int(1).sub_spec(t).mul_spec(theta),), left)
                    &&& self.sin.ensures((t.mul_spec(theta),), gone)
                    &&& r.x == a.x.mul_spec(s).add_spec(b.x.mul_spec(g))
                    &&& r.y == a.y.mul_spec(s).add_spec(b.y.mul_spec(g))
                    &&& r.z == a.z.mul_spec(s).add_spec(b.z.mul_spec(g))
                    &&& r.w == a.w.mul_spec(s).add_spec(b.w.mul_spec(g))
                },
    {
        match turn(p, c, t) {
            Turn::Settled(q) => q,
            Turn::Arc(a, b, dot) => {
                let whole_turn = F64::from_i64(1);
                let cos = if whole_turn.lt(dot) {
                    whole_turn
                } else if dot.lt(F64::from_i64(-1)) {
                    F64::from_i64(-1)
                } else {
                    dot
                };
                let theta = (self.acos)(cos);
                let whole = (self.sin)(theta);
                let left = (self.sin)(whole_turn.sub(t).mul(theta));
                let gone = (self.sin)(t.mul(theta));
                proof {
                    assert(self.arc_by(dot, t, theta, whole, left, gone));
                }
                arc_point(a, b, whole, left, gone)
            },
        }
    }
}

/// How a tracked field is interpolated. A value of another kind than the interpolation wants
/// is taken as it is.
#[derive(Clone, Copy, Debug, PartialEq, Eq, Structural)]
pub enum Interp {
    /// The current value.
    Snap,
    /// A number on the line between the two.
    Lerp,
    /// The earlier value until the frame is over.
    Step,
    /// A vector, component by component.
    Vec3Lerp,
    /// A rotation, along the shorter arc.
    Slerp,
}

impl Interp {
    /// What the output field holds before the tracked field is first written: the field's
    /// default, in the kind of value that the interpolation gives.
    pub open spec fn out_default_spec(self, source: Val) -> Val {
        match self {
            Interp::Snap | Interp::Step => source,
            Interp::Lerp => match source.num() {
                Some(x) => Val::Float(x),
                None => Val::Float(of_int(0)),
            },
            Interp::Vec3Lerp => if source is Vec3 {
                source
            } else {
                Val::Vec3(of_int(0), of_int(0), of_int(0))
            },
            Interp::Slerp => if source is Quat {
                source
            } else {
                Quat::one().val()
            },
        }
    }

    pub fn out_default(self, source: &Value) -> (r: Value)
        ensures
            r@ == self.out_default_spec(source@),
    {
        let zero = F64::from_i64(0);
        match self {
            Interp::Snap | Interp::Step => source.clone(),
            Interp::Lerp => match source.as_f64() {
                Some(x) => Value::Float(x),
                None => Value::Float(zero),
            },
            Interp::Vec3Lerp => match source.as_vec3() {
                Some(_) => source.clone(),
                None => Value::vec3(zero, zero, zero),
            },
            Interp::Slerp => match source.as_quat() {
                Some(_) => source.clone(),
                None => Value::quat(zero, zero, zero, F64::from_i64(1)),
            },
        }
    }

    /// `r` is the value at `alpha` between `prev` and `cur`.
    pub open spec fn sampled<S, A, H>(
        self,
        prev: Val,
        cur: Val,
        alpha: F64,
        math: Elementary<S, A, H>,
        r: Val,
    ) -> bool where S: Fn(F64) -> F64, A: Fn(F64) -> F64, H: Fn(F64, F64) -> F64 {
        let t = unit(alpha);
        match self {
            Interp::Snap => r == cur,
            Interp::Step => r == if t.flt(of_int(1)) {
                prev
            } else {
                cur
            },
            Interp::Lerp => match (prev.num(), cur.num()) {
                (Some(p), Some(c)) => r == Val::Float(line(p, c, t)),
                _ => r == cur,
            },
            Interp::Vec3Lerp => if prev is Vec3 && cur is Vec3 {
                r == Val::Vec3(
                    line(prev->Vec3_0, cur->Vec3_0, t),
                    line(prev->Vec3_1, cur->Vec3_1, t),
                    line(prev->Vec3_2, cur->Vec3_2, t),
                )
            } else {
                r == cur
            },
            Interp::Slerp => if prev is Quat && cur is Quat {
                r is Quat && math.turned(Quat::of(prev), Quat::of(cur), t, Quat::of(r))
            } else {
                r == cur
            },
        }
    }

    /// The value at `alpha` between `prev` and `cur`.
    pub fn sample<S, A, H>(
        self,
        prev: &Value,
        cur: &Value,
        alpha: F64,
        math: &Elementary<S, A, H>,
    ) -> (r: Value) where S: Fn(F64) -> F64, A: Fn(F64) -> F64, H: Fn(F64, F64) -> F64
        requires
            math.total(),
        ensures
            self.sampled(prev@, cur@, alpha, *math, r@),
    {
        let t = to_unit(alpha);
        match self {
            Interp::Snap => cur.clone(),
            Interp::Step => if t.lt(F64::from_i64(1)) {
                prev.clone()
            } else {
                cur.clone()
            },
            Interp::Lerp => match (prev.as_f64(), cur.as_f64()) {
                (Some(p), Some(c)) => Value::Float(lerp(p, c, t)),
                _ => cur.clone(),
            },
            Interp::Vec3Lerp => match (prev.as_vec3(), cur.as_vec3()) {
                (Some(p), Some(c)) => Value::vec3(
                    lerp(p[0], c[0], t),
                    lerp(p[1], c[1], t),
                    lerp(p[2], c[2], t),
                ),
                _ => cur.clone(),
            },
            Interp::Slerp => match (prev.as_quat(), cur.as_quat()) {
                (Some(p), Some(c)) => {
                    let a = Quat { x: p[0], y: p[1], z: p[2], w: p[3] };
                    let b = Quat { x: c[0], y: c[1], z: c[2], w: c[3] };
                    let q = math.slerp(a, b, t);
                    let v = Value::quat(q.x, q.y, q.z, q.w);
                    proof {
                        assert(a == Quat::of(prev@));
                        assert(b == Quat::of(cur@));
                        assert(q == Quat::of(v@));
                    }
                    v
                },
                _ => cur.clone(),
            },
        }
    }
}

/// A tracked field: where it comes from and where its interpolated value goes.
#[derive(Clone, Copy, Debug)]
pub struct Track {
    pub ty: EntityTypeId,
    /// The simulation's field.
    pub sim_field: FieldId,
    /// The render field that receives the interpolated value.
    pub out: RFieldId,
    /// The mirror in the render store.
    pub slot: usize,
    pub kind: Interp,
}

/// What does not move stays where it is, up to the kind of value that the interpolation
/// gives: a value that is not interpolated is the current one, and a step keeps the earlier
/// value until the frame is over.
pub proof fn law_uninterpolated_values<S, A, H>(
    prev: Val,
    cur: Val,
    alpha: F64,
    math: Elementary<S, A, H>,
    r: Val,
) where S: Fn(F64) -> F64, A: Fn(F64) -> F64, H: Fn(F64, F64) -> F64
    ensures
        Interp::Snap.sampled(prev, cur, alpha, math, r) <==> r == cur,
        Interp::Step.sampled(prev, cur, alpha, math, r) <==> r == (if unit(alpha).flt(
            of_int(1),
        ) {
            prev
        } else {
            cur
        }),
        prev.num() is None || cur.num() is None ==> (Interp::Lerp.sampled(
            prev,
            cur,
            alpha,
            math,
            r,
        ) <==> r == cur),
        !(prev is Vec3 && cur is Vec3) ==> (Interp::Vec3Lerp.sampled(prev, cur, alpha, math, r)
            <==> r == cur),
        !(prev is Quat && cur is Quat) ==> (Interp::Slerp.sampled(prev, cur, alpha, math, r) <==> r
            == cur),
{
}

}
