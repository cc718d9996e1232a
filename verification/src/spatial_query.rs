//! The queries of a grid.
use crate::entity::InstanceId;
use crate::float64::of_int;
use crate::float64::one;
use crate::float64::F64;
use crate::spatial::axis;
use crate::spatial::axis_held;
use crate::spatial::grid_key;
use crate::spatial::inst_key;
use crate::spatial::inst_key_of;
use crate::spatial::lemma_inst_key;
use crate::spatial::members;
use crate::spatial::Entry;
use crate::spatial::SpatialGrid;
use vstd::prelude::*;

verus! {

broadcast use vstd::std_specs::hash::group_hash_axioms;

/// The instances come in the order of their keys, each once.
pub open spec fn ascending(s: Seq<InstanceId>) -> bool {
    forall|i: int, j: int| 0 <= i < j < s.len() ==> inst_key(#[trigger] s[i]) < inst_key(#[trigger] s[j])
}

/// Puts an instance in its place.
fn insert_id(out: &mut Vec<InstanceId>, id: InstanceId)
    requires
        ascending(old(out)@),
    ensures
        ascending(final(out)@),
        forall|i: InstanceId| #[trigger]
            final(out)@.contains(i) <==> i == id || old(out)@.contains(i),
{
    let ghost before = out@;
    let key = inst_key_of(id);
    let mut lo: usize = 0;
    let mut hi: usize = out.len();
    while lo < hi
        invariant
            lo <= hi <= out@.len(),
            out@ == before,
            ascending(before),
            key == inst_key(id),
            forall|i: int| 0 <= i < lo ==> inst_key(#[trigger] before[i]) < key,
            forall|i: int| hi <= i < before.len() ==> key <= inst_key(#[trigger] before[i]),
        decreases hi - lo,
    {
        let mid: usize = lo + (hi - lo) / 2;
        if inst_key_of(out[mid]) < key {
            lo = mid + 1;
        } else {
            hi = mid;
        }
    }
    if lo < out.len() && inst_key_of(out[lo]) == key {
        proof {
            lemma_inst_key(before[lo as int], id);
            assert(before[lo as int] == id);
        }
        return;
    }
    out.insert(lo, id);
    proof {
        let k = lo as int;
        assert forall|i: int, j: int| 0 <= i < j < out@.len() implies inst_key(#[trigger] out@[i])
            < inst_key(#[trigger] out@[j]) by {
            let a = if i < k {
                i
            } else {
                i - 1
            };
            let b = if j < k {
                j
            } else {
                j - 1
            };
            if i != k {
                assert(out@[i] == before[a]);
            }
            if j != k {
                assert(out@[j] == before[b]);
                if i == k && b > k {
                    assert(inst_key(before[k]) < inst_key(before[b]));
                }
            }
        }
        assert forall|i: InstanceId| #[trigger] out@.contains(i) <==> i == id || before.contains(i) by {
            if before.contains(i) {
                let x = choose|x: int| 0 <= x < before.len() && before[x] == i;
                if x < k {
                    assert(out@[x] == i);
                } else {
                    assert(out@[x + 1] == i);
                }
            }
            if out@.contains(i) {
                let x = choose|x: int| 0 <= x < out@.len() && out@[x] == i;
                if x < k {
                    assert(before[x] == i);
                } else if x > k {
                    assert(before[x - 1] == i);
                }
            }
            assert(out@[k] == id);
        }
    }
}

/// The cell lies within the range.
pub open spec fn cell_within(e: Entry, x0: int, y0: int, x1: int, y1: int) -> bool {
    x0 <= e.cx <= x1 && y0 <= e.cy <= y1
}

/// The position lies within the closed rectangle.
pub open spec fn inside(e: Entry, min_x: F64, min_y: F64, max_x: F64, max_y: F64) -> bool {
    min_x.fle(e.x) && e.x.fle(max_x) && min_y.fle(e.y) && e.y.fle(max_y)
}

/// The squared distance of the position, as computed, is at most `r2`.
pub open spec fn near(e: Entry, cx: F64, cy: F64, r2: F64) -> bool {
    let dx = e.x.sub_spec(cx);
    let dy = e.y.sub_spec(cy);
    dx.mul_spec(dx).add_spec(dy.mul_spec(dy)).fle(r2)
}

/// The range has so many cells that looking at every resident is cheaper.
pub open spec fn too_wide(n: nat, x0: int, y0: int, x1: int, y1: int) -> bool {
    let budget = if 4 * n > 64 {
        4 * n
    } else {
        64
    };
    (x1 - x0 + 1) * (y1 - y0 + 1) > budget
}

impl SpatialGrid {
    /// All residents, in order.
    fn everyone(&self) -> (r: Vec<InstanceId>)
        requires
            self.wf(),
        ensures
            ascending(r@),
            forall|id: InstanceId| #[trigger] r@.contains(id) <==> self.has(id),
    {
        let mut out: Vec<InstanceId> = Vec::new();
        let mut i: usize = 0;
        while i < self.ids.len()
            invariant
                i <= self.ids@.len(),
                ascending(out@),
                forall|id: InstanceId| #[trigger]
                    out@.contains(id) <==> self.ids@.take(i as int).contains(id),
            decreases self.ids@.len() - i,
        {
            let x = self.ids[i];
            let ghost part = self.ids@.take(i as int);
            let ghost before = out@;
            insert_id(&mut out, x);
            proof {
                assert(self.ids@.take(i + 1) =~= part.push(x));
                assert forall|id: InstanceId| #[trigger] out@.contains(id) <==> self.ids@.take(
                    i + 1,
                ).contains(id) by {
                    lemma_pushed(part, x, id);
                    assert(before.contains(id) <==> part.contains(id));
                }
            }
            i = i + 1;
        }
        proof {
            assert(self.ids@.take(i as int) =~= self.ids@);
            assert forall|id: InstanceId| #[trigger] out@.contains(id) <==> self.has(id) by {
                assert(self.ids@.contains(id) <==> self.has(id));
            }
        }
        out
    }

    /// The residents of one cell are added.
    fn take_cell(&self, cx: i32, cy: i32, out: &mut Vec<InstanceId>)
        requires
            self.wf(),
            ascending(old(out)@),
        ensures
            ascending(final(out)@),
            forall|id: InstanceId| #[trigger]
                final(out)@.contains(id) <==> old(out)@.contains(id) || (self.has(id) && self.entry(
                    id,
                ).cx == cx && self.entry(id).cy == cy),
    {
        let ghost start = out@;
        let k = crate::spatial::grid_key_of(cx, cy);
        if let Some(v) = self.cells.get(&k) {
            let mut i: usize = 0;
            while i < v.len()
                invariant
                    i <= v@.len(),
                    ascending(out@),
                    forall|id: InstanceId| #[trigger]
                        out@.contains(id) <==> start.contains(id) || v@.take(i as int).contains(id),
                decreases v@.len() - i,
            {
                let x = v[i];
                let ghost part = v@.take(i as int);
                let ghost before = out@;
                insert_id(out, x);
                proof {
                    assert(v@.take(i + 1) =~= part.push(x));
                    assert forall|id: InstanceId| #[trigger] out@.contains(id) <==> start.contains(
                        id,
                    ) || v@.take(i + 1).contains(id) by {
                        lemma_pushed(part, x, id);
                        assert(before.contains(id) <==> start.contains(id) || part.contains(id));
                    }
                }
                i = i + 1;
            }
            proof {
                assert(v@.take(i as int) =~= v@);
                assert(members(self.cells@, k) == v@);
            }
        } else {
            assert(members(self.cells@, k) =~= Seq::empty());
        }
        proof {
            assert forall|id: InstanceId| #[trigger] out@.contains(id) <==> start.contains(id) || (
            self.has(id) && self.entry(id).cx == cx && self.entry(id).cy == cy) by {
                assert(members(self.cells@, k).contains(id) <==> self.has(id) && grid_key(
                    self.entry(id).cx,
                    self.entry(id).cy,
                ) == k);
                crate::spatial::lemma_grid_key(self.entry(id).cx, self.entry(id).cy, cx, cy);
            }
        }
    }

    /// The residents of a range of cells, in order.
    fn in_range(&self, x0: i32, y0: i32, x1: i32, y1: i32) -> (r: Vec<InstanceId>)
        requires
            self.wf(),
        ensures
            ascending(r@),
            forall|id: InstanceId| #[trigger]
                r@.contains(id) <==> self.has(id) && cell_within(
                    self.entry(id),
                    x0 as int,
                    y0 as int,
                    x1 as int,
                    y1 as int,
                ),
    {
        let mut out: Vec<InstanceId> = Vec::new();
        let mut x: i64 = x0 as i64;
        while x <= x1 as i64
            invariant
                self.wf(),
                x0 <= x,
                x <= x1 + 1 || x == x0,
                ascending(out@),
                forall|id: InstanceId| #[trigger]
                    out@.contains(id) <==> self.has(id) && cell_within(
                        self.entry(id),
                        x0 as int,
                        y0 as int,
                        x - 1,
                        y1 as int,
                    ),
            decreases x1 - x + 1,
        {
            let ghost start = out@;
            let mut y: i64 = y0 as i64;
            while y <= y1 as i64
                invariant
                    self.wf(),
                    x0 <= x <= x1,
                    y0 <= y,
                    y <= y1 + 1 || y == y0,
                    ascending(out@),
                    forall|id: InstanceId| #[trigger]
                        out@.contains(id) <==> start.contains(id) || (self.has(id) && cell_within(
                            self.entry(id),
                            x as int,
                            y0 as int,
                            x as int,
                            y - 1,
                        )),
                decreases y1 - y + 1,
            {
                let ghost before = out@;
                self.take_cell(x as i32, y as i32, &mut out);
                proof {
                    assert forall|id: InstanceId| #[trigger] out@.contains(id) <==> start.contains(
                        id,
                    ) || (self.has(id) && cell_within(
                        self.entry(id),
                        x as int,
                        y0 as int,
                        x as int,
                        y as int,
                    )) by {
                        assert(before.contains(id) <==> start.contains(id) || (self.has(id)
                            && cell_within(
                            self.entry(id),
                            x as int,
                            y0 as int,
                            x as int,
                            y - 1,
                        )));
                    }
                }
                y = y + 1;
            }
            proof {
                assert forall|id: InstanceId| #[trigger] out@.contains(id) <==> self.has(id)
                    && cell_within(self.entry(id), x0 as int, y0 as int, x as int, y1 as int) by {
                    assert(start.contains(id) <==> self.has(id) && cell_within(
                        self.entry(id),
                        x0 as int,
                        y0 as int,
                        x - 1,
                        y1 as int,
                    ));
                }
            }
            x = x + 1;
        }
        out
    }

    fn range_too_wide(&self, x0: i32, y0: i32, x1: i32, y1: i32) -> (r: bool)
        requires
            x0 <= x1 + 1,
            y0 <= y1 + 1,
        ensures
            r == too_wide(self.ids@.len(), x0 as int, y0 as int, x1 as int, y1 as int),
    {
        let width: u128 = (x1 as i64 - x0 as i64 + 1) as u128;
        let height: u128 = (y1 as i64 - y0 as i64 + 1) as u128;
        proof {
            assert(width * height <= 0x1_0000_0001 * 0x1_0000_0001) by (nonlinear_arith)
                requires
                    width <= 0x1_0000_0001,
                    height <= 0x1_0000_0001,
            ;
        }
        let quarter: u128 = self.ids.len() as u128;
        let budget: u128 = if 4 * quarter > 64 {
            4 * quarter
        } else {
            64
        };
        width * height > budget
    }

    /// The residents within a closed rectangle, in order. A rectangle that is empty or not
    /// finite has none.
    pub fn query_aabb(&self, min_x: F64, min_y: F64, max_x: F64, max_y: F64) -> (r: Vec<InstanceId>)
        requires
            self.wf(),
        ensures
            ascending(r@),
            forall|id: InstanceId| #[trigger]
                r@.contains(id) <==> self.has(id) && min_x.finite() && min_y.finite()
                    && max_x.finite() && max_y.finite() && inside(
                    self.entry(id),
                    min_x,
                    min_y,
                    max_x,
                    max_y,
                ),
    {
        let mut out: Vec<InstanceId> = Vec::new();
        if max_x.lt(min_x) || max_y.lt(min_y) || !min_x.is_finite() || !min_y.is_finite()
            || !max_x.is_finite() || !max_y.is_finite() {
            return out;
        }
        let x0 = crate::spatial::axis_clamped(min_x, self.inv_cell);
        let y0 = crate::spatial::axis_clamped(min_y, self.inv_cell);
        let x1 = crate::spatial::axis_clamped(max_x, self.inv_cell);
        let y1 = crate::spatial::axis_clamped(max_y, self.inv_cell);
        let found: Vec<InstanceId> = if x0 > x1 || y0 > y1 || self.range_too_wide(x0, y0, x1, y1) {
            self.everyone()
        } else {
            self.in_range(x0, y0, x1, y1)
        };
        proof {
            assert forall|id: InstanceId|
                self.has(id) && inside(self.entry(id), min_x, min_y, max_x, max_y) implies (
            #[trigger] found@.contains(id)) by {
                let e = self.entry(id);
                crate::spatial::lemma_axis_order(min_x, e.x, max_x, self.inv_cell);
                crate::spatial::lemma_axis_order(min_y, e.y, max_y, self.inv_cell);
            }
        }
        let mut i: usize = 0;
        while i < found.len()
            invariant
                self.wf(),
                i <= found@.len(),
                ascending(found@),
                ascending(out@),
                forall|id: InstanceId| #[trigger] found@.contains(id) ==> self.has(id),
                forall|id: InstanceId| #[trigger]
                    out@.contains(id) <==> found@.take(i as int).contains(id) && inside(
                        self.entry(id),
                        min_x,
                        min_y,
                        max_x,
                        max_y,
                    ),
            decreases found@.len() - i,
        {
            let id = found[i];
            let ghost part = found@.take(i as int);
            let ghost before = out@;
            assert(found@.contains(found@[i as int]));
            if let Some(e) = self.entries.get(&inst_key_of(id)) {
                if min_x.le(e.x) && e.x.le(max_x) && min_y.le(e.y) && e.y.le(max_y) {
                    insert_id(&mut out, id);
                }
            }
            proof {
                assert(found@.take(i + 1) =~= part.push(id));
                assert forall|x: InstanceId| #[trigger] out@.contains(x) <==> found@.take(
                    i + 1,
                ).contains(x) && inside(self.entry(x), min_x, min_y, max_x, max_y) by {
                    lemma_pushed(part, id, x);
                    assert(before.contains(x) <==> part.contains(x) && inside(
                        self.entry(x),
                        min_x,
                        min_y,
                        max_x,
                        max_y,
                    ));
                }
            }
            i = i + 1;
        }
        proof {
            assert(found@.take(i as int) =~= found@);
        }
        out
    }

    /// The residents within a radius, in order: those whose squared distance, as computed, is
    /// at most the squared radius, among the cells that the circle reaches.
    pub fn query_radius(&self, cx: F64, cy: F64, radius: F64) -> (r: Vec<InstanceId>)
        requires
            self.wf(),
        ensures
            ascending(r@),
            !cx.finite() || !cy.finite() || !radius.finite() || radius.flt(of_int(0))
                ==> r@.len() == 0,
            cx.finite() && cy.finite() && radius.finite() && !radius.flt(of_int(0)) ==> forall|
                id: InstanceId,
            | #[trigger]
                r@.contains(id) <==> self.has(id) && near(
                    self.entry(id),
                    cx,
                    cy,
                    radius.mul_spec(radius),
                ) && self.reached(self.entry(id), cx, cy, radius),
    {
        let mut out: Vec<InstanceId> = Vec::new();
        if !cx.is_finite() || !cy.is_finite() || !radius.is_finite() || radius.lt(F64::from_i64(0)) {
            return out;
        }
        let r2 = radius.mul(radius);
        let lo_x = cx.sub(radius);
        let lo_y = cy.sub(radius);
        let hi_x = cx.add(radius);
        let hi_y = cy.add(radius);
        if !lo_x.is_finite() || !lo_y.is_finite() || !hi_x.is_finite() || !hi_y.is_finite() {
            return out;
        }
        let x0 = crate::spatial::axis_clamped(lo_x, self.inv_cell);
        let y0 = crate::spatial::axis_clamped(lo_y, self.inv_cell);
        let x1 = crate::spatial::axis_clamped(hi_x, self.inv_cell);
        let y1 = crate::spatial::axis_clamped(hi_y, self.inv_cell);
        let found: Vec<InstanceId> = if x0 > x1 || y0 > y1 {
            Vec::new()
        } else if self.range_too_wide(x0, y0, x1, y1) {
            self.everyone()
        } else {
            self.in_range(x0, y0, x1, y1)
        };
        let mut i: usize = 0;
        while i < found.len()
            invariant
                self.wf(),
                i <= found@.len(),
                ascending(found@),
                ascending(out@),
                forall|id: InstanceId| #[trigger] found@.contains(id) ==> self.has(id),
                forall|id: InstanceId| #[trigger]
                    out@.contains(id) <==> found@.take(i as int).contains(id) && near(
                        self.entry(id),
                        cx,
                        cy,
                        r2,
                    ),
            decreases found@.len() - i,
        {
            let id = found[i];
            let ghost part = found@.take(i as int);
            let ghost before = out@;
            assert(found@.contains(found@[i as int]));
            if let Some(e) = self.entries.get(&inst_key_of(id)) {
                let dx = e.x.sub(cx);
                let dy = e.y.sub(cy);
                if dx.mul(dx).add(dy.mul(dy)).le(r2) {
                    insert_id(&mut out, id);
                }
            }
            proof {
                assert(found@.take(i + 1) =~= part.push(id));
                assert forall|x: InstanceId| #[trigger] out@.contains(x) <==> found@.take(
                    i + 1,
                ).contains(x) && near(self.entry(x), cx, cy, r2) by {
                    lemma_pushed(part, id, x);
                    assert(before.contains(x) <==> part.contains(x) && near(
                        self.entry(x),
                        cx,
                        cy,
                        r2,
                    ));
                }
            }
            i = i + 1;
        }
        proof {
            assert(found@.take(i as int) =~= found@);
        }
        out
    }

    /// The circle reaches the cell of the resident: its bounding square is finite and covers
    /// the cell, or has so many cells that all residents are looked at.
    pub open spec fn reached(self, e: Entry, cx: F64, cy: F64, radius: F64) -> bool {
        let lo_x = cx.sub_spec(radius);
        let lo_y = cy.sub_spec(radius);
        let hi_x = cx.add_spec(radius);
        let hi_y = cy.add_spec(radius);
        let x0 = axis_held(lo_x, self.inv_cell);
        let y0 = axis_held(lo_y, self.inv_cell);
        let x1 = axis_held(hi_x, self.inv_cell);
        let y1 = axis_held(hi_y, self.inv_cell);
        &&& lo_x.finite() && lo_y.finite() && hi_x.finite() && hi_y.finite()
        &&& x0 <= x1 && y0 <= y1
        &&& too_wide(self.ids@.len(), x0, y0, x1, y1) || cell_within(e, x0, y0, x1, y1)
    }
}

proof fn lemma_pushed(s: Seq<InstanceId>, a: InstanceId, b: InstanceId)
    ensures
        s.push(a).contains(b) <==> s.contains(b) || b == a,
{
    let p = s.push(a);
    if s.contains(b) {
        let k = choose|k: int| 0 <= k < s.len() && s[k] == b;
        assert(p[k] == b);
    }
    assert(p[s.len() as int] == a);
}

/// A radius query looks at every resident within the bounding square of the circle.
pub proof fn law_circle_reaches_its_square(
    grid: SpatialGrid,
    id: InstanceId,
    cx: F64,
    cy: F64,
    radius: F64,
)
    requires
        grid.wf(),
        grid.has(id),
        cx.sub_spec(radius).finite(),
        cy.sub_spec(radius).finite(),
        cx.add_spec(radius).finite(),
        cy.add_spec(radius).finite(),
        inside(
            grid.entry(id),
            cx.sub_spec(radius),
            cy.sub_spec(radius),
            cx.add_spec(radius),
            cy.add_spec(radius),
        ),
    ensures
        grid.reached(grid.entry(id), cx, cy, radius),
{
    let e = grid.entry(id);
    crate::spatial::lemma_axis_order(
        cx.sub_spec(radius),
        e.x,
        cx.add_spec(radius),
        grid.inv_cell,
    );
    crate::spatial::lemma_axis_order(
        cy.sub_spec(radius),
        e.y,
        cy.add_spec(radius),
        grid.inv_cell,
    );
}

/// The cells are the same, or neighbours.
pub open spec fn adjacent(a: Entry, b: Entry) -> bool {
    cell_within(b, a.cx - 1, a.cy - 1, a.cx + 1, a.cy + 1)
}

/// The two residents are a candidate pair, the one with the smaller key first.
pub open spec fn candidate(grid: SpatialGrid, p: (InstanceId, InstanceId)) -> bool {
    &&& grid.has(p.0)
    &&& grid.has(p.1)
    &&& inst_key(p.0) < inst_key(p.1)
    &&& adjacent(grid.entry(p.0), grid.entry(p.1))
}

/// The pairs come in the order of their first and then of their second keys, each once.
pub open spec fn pairs_ascending(s: Seq<(InstanceId, InstanceId)>) -> bool {
    forall|i: int, j: int|
        0 <= i < j < s.len() ==> {
            let a = #[trigger] s[i];
            let b = #[trigger] s[j];
            inst_key(a.0) < inst_key(b.0) || (a.0 == b.0 && inst_key(a.1) < inst_key(b.1))
        }
}

proof fn lemma_pushed_pair(
    s: Seq<(InstanceId, InstanceId)>,
    a: (InstanceId, InstanceId),
    b: (InstanceId, InstanceId),
)
    ensures
        s.push(a).contains(b) <==> s.contains(b) || b == a,
{
    let p = s.push(a);
    if s.contains(b) {
        let k = choose|k: int| 0 <= k < s.len() && s[k] == b;
        assert(p[k] == b);
    }
    assert(p[s.len() as int] == a);
}

impl SpatialGrid {
    /// The pairs of residents in the same cell or in neighbouring ones: every such pair once,
    /// in order.
    pub fn candidate_pairs(&self) -> (r: Vec<(InstanceId, InstanceId)>)
        requires
            self.wf(),
        ensures
            pairs_ascending(r@),
            forall|p: (InstanceId, InstanceId)| #[trigger] r@.contains(p) <==> candidate(*self, p),
    {
        let ids = self.everyone();
        let mut out: Vec<(InstanceId, InstanceId)> = Vec::new();
        let mut i: usize = 0;
        while i < ids.len()
            invariant
                self.wf(),
                ascending(ids@),
                forall|id: InstanceId| #[trigger] ids@.contains(id) <==> self.has(id),
                i <= ids@.len(),
                pairs_ascending(out@),
                forall|p: (InstanceId, InstanceId)| #[trigger]
                    out@.contains(p) <==> candidate(*self, p) && ids@.take(i as int).contains(p.0),
            decreases ids@.len() - i,
        {
            let a = ids[i];
            let ghost start = out@;
            let ghost done = ids@.take(i as int);
            assert(ids@.contains(ids@[i as int]));
            assert(self.entry(a).id == a);
            if let Some(e) = self.entries.get(&inst_key_of(a)) {
                let x0: i32 = if e.cx > i32::MIN {
                    e.cx - 1
                } else {
                    e.cx
                };
                let y0: i32 = if e.cy > i32::MIN {
                    e.cy - 1
                } else {
                    e.cy
                };
                let x1: i32 = if e.cx < i32::MAX {
                    e.cx + 1
                } else {
                    e.cx
                };
                let y1: i32 = if e.cy < i32::MAX {
                    e.cy + 1
                } else {
                    e.cy
                };
                let near = self.in_range(x0, y0, x1, y1);
                let key = inst_key_of(a);
                let mut j: usize = 0;
                while j < near.len()
                    invariant
                        self.wf(),
                        self.has(a),
                        key == inst_key(a),
                        ascending(near@),
                        ascending(ids@),
                        i < ids@.len(),
                        a == ids@[i as int],
                        done == ids@.take(i as int),
                        forall|id: InstanceId| #[trigger]
                            near@.contains(id) <==> self.has(id) && adjacent(
                                self.entry(a),
                                self.entry(id),
                            ),
                        j <= near@.len(),
                        pairs_ascending(out@),
                        forall|p: (InstanceId, InstanceId)| #[trigger]
                            start.contains(p) <==> candidate(*self, p) && done.contains(p.0),
                        forall|p: (InstanceId, InstanceId)| #[trigger]
                            out@.contains(p) <==> start.contains(p) || (p.0 == a && candidate(
                                *self,
                                p,
                            ) && near@.take(j as int).contains(p.1)),
                    decreases near@.len() - j,
                {
                    let b = near[j];
                    let ghost before = out@;
                    let ghost part = near@.take(j as int);
                    assert(near@.contains(near@[j as int]));
                    if key < inst_key_of(b) {
                        out.push((a, b));
                        proof {
                            assert(candidate(*self, (a, b)));
                            assert forall|x: int, y: int| 0 <= x < y < out@.len() implies {
                                let p = #[trigger] out@[x];
                                let q = #[trigger] out@[y];
                                inst_key(p.0) < inst_key(q.0) || (p.0 == q.0 && inst_key(p.1)
                                    < inst_key(q.1))
                            } by {
                                if y < before.len() {
                                    assert(out@[x] == before[x] && out@[y] == before[y]);
                                } else {
                                    let p = before[x];
                                    assert(before.contains(p));
                                    if start.contains(p) {
                                        assert(done.contains(p.0));
                                        let k = choose|k: int| 0 <= k < done.len() && done[k] == p.0;
                                        assert(inst_key(ids@[k]) < inst_key(ids@[i as int]));
                                    } else {
                                        assert(part.contains(p.1));
                                        let k = choose|k: int| 0 <= k < part.len() && part[k] == p.1;
                                        assert(inst_key(near@[k]) < inst_key(near@[j as int]));
                                    }
                                }
                            }
                        }
                    }
                    proof {
                        assert(near@.take(j + 1) =~= part.push(b));
                        assert forall|p: (InstanceId, InstanceId)| #[trigger] out@.contains(p)
                            <==> start.contains(p) || (p.0 == a && candidate(*self, p)
                            && near@.take(j + 1).contains(p.1)) by {
                            lemma_pushed(part, b, p.1);
                            lemma_pushed_pair(before, (a, b), p);
                            assert(before.contains(p) <==> start.contains(p) || (p.0 == a
                                && candidate(*self, p) && part.contains(p.1)));
                        }
                    }
                    j = j + 1;
                }
                proof {
                    assert(near@.take(j as int) =~= near@);
                    assert(ids@.take(i + 1) =~= done.push(a));
                    assert forall|p: (InstanceId, InstanceId)| #[trigger] out@.contains(p)
                        <==> candidate(*self, p) && ids@.take(i + 1).contains(p.0) by {
                        lemma_pushed(done, a, p.0);
                        assert(start.contains(p) <==> candidate(*self, p) && done.contains(p.0));
                    }
                }
            }
            i = i + 1;
        }
        proof {
            assert(ids@.take(i as int) =~= ids@);
            assert forall|p: (InstanceId, InstanceId)| #[trigger] out@.contains(p) <==> candidate(
                *self,
                p,
            ) by {
                assert(ids@.contains(p.0) <==> self.has(p.0));
            }
        }
        out
    }
}

/// Measured in cells, two coordinates are at most one apart.
pub open spec fn within_a_cell(a: F64, b: F64, inv: F64) -> bool {
    let p = a.mul_spec(inv).scaled();
    let q = b.mul_spec(inv).scaled();
    p - q <= one() && q - p <= one()
}

/// Coordinates at most one cell apart lie in the same cell or in neighbouring ones.
proof fn lemma_near_cells(a: F64, b: F64, inv: F64)
    requires
        axis(a, inv) is Some,
        axis(b, inv) is Some,
        within_a_cell(a, b, inv),
    ensures
        axis(a, inv)->0 - 1 <= axis(b, inv)->0 <= axis(a, inv)->0 + 1,
{
    let p = a.mul_spec(inv).scaled();
    let q = b.mul_spec(inv).scaled();
    let d = one() as int;
    vstd::arithmetic::power2::lemma_pow2_pos(1074);
    vstd::arithmetic::div_mod::lemma_div_is_ordered(p, d + q, d);
    vstd::arithmetic::div_mod::lemma_div_is_ordered(q, d + p, d);
    vstd::arithmetic::div_mod::lemma_div_plus_one(q, d);
    vstd::arithmetic::div_mod::lemma_div_plus_one(p, d);
}

/// Near residents are candidates: two that are at most one cell apart on each axis are a pair,
/// the one with the smaller key first.
pub proof fn law_near_residents_are_candidates(grid: SpatialGrid, a: InstanceId, b: InstanceId)
    requires
        grid.wf(),
        grid.has(a),
        grid.has(b),
        a != b,
        within_a_cell(grid.entry(a).x, grid.entry(b).x, grid.inv_cell),
        within_a_cell(grid.entry(a).y, grid.entry(b).y, grid.inv_cell),
    ensures
        candidate(
            grid,
            if inst_key(a) < inst_key(b) {
                (a, b)
            } else {
                (b, a)
            },
        ),
{
    let e = grid.entry(a);
    let f = grid.entry(b);
    lemma_near_cells(e.x, f.x, grid.inv_cell);
    lemma_near_cells(e.y, f.y, grid.inv_cell);
    lemma_inst_key(a, b);
}

}
