//! What the camera sees: the shape of its view, the plane of the grid, and levels of detail.
use crate::entity::InstanceId;
use crate::float64::of_int;
use crate::float64::F64;
use crate::lists::first;
use crate::lists::lemma_first;
use crate::spatial::SpatialGrid;
use crate::spatial_query::ascending;
use crate::spatial_query::inside;
use crate::spatial_query::near;
use crate::value::path_of;
use crate::value::Val;
use crate::value::Value;
use vstd::prelude::*;

verus! {

/// The region in view, around the camera's point on the plane.
#[derive(Clone, Copy, Debug)]
pub enum CullShape {
    Radius(F64),
    /// A rectangle, by half its width and half its height.
    Aabb { hx: F64, hy: F64 },
}

pub open spec fn positive(x: F64) -> bool {
    x.finite() && of_int(0).flt(x)
}

pub fn is_positive(x: F64) -> (r: bool)
    ensures
        r == positive(x),
{
    x.is_finite() && F64::from_i64(0).lt(x)
}

impl CullShape {
    /// A resident of the grid is in view from a point.
    pub open spec fn sees(self, grid: SpatialGrid, cx: F64, cy: F64, id: InstanceId) -> bool {
        grid.has(id) && match self {
            CullShape::Radius(r) => {
                &&& cx.finite() && cy.finite() && r.finite() && !r.flt(of_int(0))
                &&& near(grid.entry(id), cx, cy, r.mul_spec(r))
                &&& grid.reached(grid.entry(id), cx, cy, r)
            },
            CullShape::Aabb { hx, hy } => {
                let (x0, y0, x1, y1) = (
                    cx.sub_spec(hx),
                    cy.sub_spec(hy),
                    cx.add_spec(hx),
                    cy.add_spec(hy),
                );
                &&& x0.finite() && y0.finite() && x1.finite() && y1.finite()
                &&& inside(grid.entry(id), x0, y0, x1, y1)
            },
        }
    }

    /// The residents in view, in order.
    pub fn query(&self, grid: &SpatialGrid, cx: F64, cy: F64) -> (r: Vec<InstanceId>)
        requires
            grid.wf(),
        ensures
            ascending(r@),
            forall|id: InstanceId| #[trigger] r@.contains(id) <==> self.sees(*grid, cx, cy, id),
    {
        match *self {
            CullShape::Radius(r) => grid.query_radius(cx, cy, r),
            CullShape::Aabb { hx, hy } => grid.query_aabb(
                cx.sub(hx),
                cy.sub(hy),
                cx.add(hx),
                cy.add(hy),
            ),
        }
    }

    pub open spec fn valid(self) -> bool {
        match self {
            CullShape::Radius(r) => positive(r),
            CullShape::Aabb { hx, hy } => positive(hx) && positive(hy),
        }
    }

    pub fn is_valid(&self) -> (r: bool)
        ensures
            r == self.valid(),
    {
        match *self {
            CullShape::Radius(r) => is_positive(r),
            CullShape::Aabb { hx, hy } => is_positive(hx) && is_positive(hy),
        }
    }
}

/// The plane of the grid: the two components of a position that it keeps.
#[derive(Clone, Copy, Debug, PartialEq, Eq, Structural)]
pub enum Axes {
    XY,
    XZ,
    YZ,
}

impl Axes {
    pub open spec fn idx_spec(self) -> (int, int) {
        match self {
            Axes::XY => (0, 1),
            Axes::XZ => (0, 2),
            Axes::YZ => (1, 2),
        }
    }

    pub open spec fn names_spec(self) -> (Seq<char>, Seq<char>) {
        match self {
            Axes::XY => ("x"@, "y"@),
            Axes::XZ => ("x"@, "z"@),
            Axes::YZ => ("y"@, "z"@),
        }
    }

    /// A position on the plane, if both components are finite numbers.
    pub open spec fn project_spec(self, v: Val) -> Option<(F64, F64)> {
        let (x, y) = if v is Vec3 {
            let a = seq![v->Vec3_0, v->Vec3_1, v->Vec3_2];
            (Some(a[self.idx_spec().0]), Some(a[self.idx_spec().1]))
        } else {
            (
                v.get_path(seq![self.names_spec().0]).num(),
                v.get_path(seq![self.names_spec().1]).num(),
            )
        };
        if x is Some && y is Some && x->0.finite() && y->0.finite() {
            Some((x->0, y->0))
        } else {
            None
        }
    }

    /// The places of the two components in a vector.
    pub fn idx(self) -> (r: (usize, usize))
        ensures
            (r.0 as int, r.1 as int) == self.idx_spec(),
            r.0 < 3 && r.1 < 3,
    {
        match self {
            Axes::XY => (0, 1),
            Axes::XZ => (0, 2),
            Axes::YZ => (1, 2),
        }
    }

    /// The names of the two components.
    pub fn names(self) -> (r: (&'static str, &'static str))
        ensures
            (r.0@, r.1@) == self.names_spec(),
    {
        match self {
            Axes::XY => ("x", "y"),
            Axes::XZ => ("x", "z"),
            Axes::YZ => ("y", "z"),
        }
    }

    /// A position on the plane of the grid.
    pub fn project(self, v: &Value) -> (r: Option<(F64, F64)>)
        ensures
            r == self.project_spec(v@),
    {
        if let Some(a) = v.as_vec3() {
            let (i, j) = self.idx();
            return finite_pair(a[i], a[j]);
        }
        let (a, b) = self.names();
        let pa: Vec<String> = vec![a.to_string()];
        let pb: Vec<String> = vec![b.to_string()];
        proof {
            assert(path_of(pa@) =~= seq![a@]);
            assert(path_of(pb@) =~= seq![b@]);
        }
        match (v.get_path(&pa).as_f64(), v.get_path(&pb).as_f64()) {
            (Some(x), Some(y)) => finite_pair(x, y),
            _ => None,
        }
    }
}

fn finite_pair(x: F64, y: F64) -> (r: Option<(F64, F64)>)
    ensures
        r == (if x.finite() && y.finite() {
            Some((x, y))
        } else {
            None::<(F64, F64)>
        }),
{
    if x.is_finite() && y.is_finite() {
        Some((x, y))
    } else {
        None
    }
}

/// The first threshold that is greater than the distance, or their number.
pub open spec fn band(dist: F64, thresholds: Seq<F64>) -> int {
    first(thresholds, |t: F64| dist.flt(t))
}

/// The level of detail at a distance: the first threshold that is greater.
pub fn lod_band(dist: F64, thresholds: &[F64]) -> (r: usize)
    ensures
        r <= thresholds@.len(),
        r < thresholds@.len() ==> dist.flt(thresholds@[r as int]),
        forall|i: int| 0 <= i < r ==> !dist.flt(#[trigger] thresholds@[i]),
        r == band(dist, thresholds@),
{
    let mut i: usize = 0;
    while i < thresholds.len()
        invariant
            i <= thresholds@.len(),
            forall|j: int| 0 <= j < i ==> !dist.flt(#[trigger] thresholds@[j]),
        decreases thresholds@.len() - i,
    {
        if dist.lt(thresholds[i]) {
            proof {
                lemma_first(thresholds@, |t: F64| dist.flt(t), i as int);
            }
            return i;
        }
        i = i + 1;
    }
    proof {
        lemma_first(thresholds@, |t: F64| dist.flt(t), i as int);
    }
    i
}

/// A greater distance never gets a finer level.
pub proof fn law_detail_falls_with_distance(
    near_dist: F64,
    far_dist: F64,
    thresholds: Seq<F64>,
    a: int,
    b: int,
)
    requires
        near_dist.fle(far_dist),
        0 <= a <= thresholds.len(),
        a < thresholds.len() ==> near_dist.flt(thresholds[a]),
        forall|i: int| 0 <= i < a ==> !near_dist.flt(#[trigger] thresholds[i]),
        0 <= b <= thresholds.len(),
        b < thresholds.len() ==> far_dist.flt(thresholds[b]),
        forall|i: int| 0 <= i < b ==> !far_dist.flt(#[trigger] thresholds[i]),
    ensures
        a <= b,
{
    if b < a {
        assert(near_dist.flt(thresholds[b]));
    }
}

}
