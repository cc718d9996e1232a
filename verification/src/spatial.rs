//! A uniform grid for range queries and broad-phase pairs.
//!
//! The grid is a tool for calculations that keep an index of their own: they feed it the
//! positions that were written and write what the queries give. A cell should be no smaller
//! than the largest distance of interaction, or pairs that lie several cells apart are
//! missed.
use crate::entity::InstanceId;
use crate::float64::of_int;
use crate::float64::one;
use crate::float64::saturate;
use crate::float64::F64;
use std::collections::HashMap;
use vstd::prelude::*;

verus! {

broadcast use vstd::std_specs::hash::group_hash_axioms;

/// An instance as one number. The order of the numbers is that of type, id and generation.
pub open spec fn inst_key(i: InstanceId) -> u128 {
    (i.ty.0 * 0x1_0000_0000_0000_0000_0000_0000 + i.id * 0x1_0000_0000_0000_0000 + i.generation)
        as u128
}

pub fn inst_key_of(i: InstanceId) -> (r: u128)
    ensures
        r == inst_key(i),
{
    i.ty.0 as u128 * 0x1_0000_0000_0000_0000_0000_0000 + i.id as u128 * 0x1_0000_0000_0000_0000
        + i.generation as u128
}

pub proof fn lemma_inst_key(a: InstanceId, b: InstanceId)
    ensures
        inst_key(a) == inst_key(b) <==> a == b,
{
}

/// A cell of the grid as one number.
pub open spec fn grid_key(cx: i32, cy: i32) -> u64 {
    ((cx + 0x8000_0000) * 0x1_0000_0000 + (cy + 0x8000_0000)) as u64
}

pub(crate) fn grid_key_of(cx: i32, cy: i32) -> (r: u64)
    ensures
        r == grid_key(cx, cy),
{
    let x: i64 = cx as i64 + 0x8000_0000;
    let y: i64 = cy as i64 + 0x8000_0000;
    x as u64 * 0x1_0000_0000 + y as u64
}

pub proof fn lemma_grid_key(a: i32, b: i32, c: i32, d: i32)
    ensures
        grid_key(a, b) == grid_key(c, d) <==> a == c && b == d,
{
}

/// The cell of a coordinate, where it has one.
pub open spec fn axis(v: F64, inv: F64) -> Option<int> {
    let p = v.mul_spec(inv);
    if !v.finite() || !p.finite() {
        None
    } else {
        let c = saturate(p.scaled() / one() as int) as int;
        if i32::MIN <= c <= i32::MAX {
            Some(c)
        } else {
            None
        }
    }
}

/// The cell of a finite coordinate, held to the cells there are.
pub open spec fn axis_held(v: F64, inv: F64) -> int {
    let p = v.mul_spec(inv);
    if p.nan() {
        0
    } else if p.inf() {
        if p.neg_bit() {
            i32::MIN as int
        } else {
            i32::MAX as int
        }
    } else {
        let c = saturate(p.scaled() / one() as int) as int;
        if c < i32::MIN {
            i32::MIN as int
        } else if c > i32::MAX {
            i32::MAX as int
        } else {
            c
        }
    }
}

fn axis_of(v: F64, inv: F64) -> (r: Option<i32>)
    ensures
        r is Some <==> axis(v, inv) is Some,
        r is Some ==> r->0 == axis(v, inv)->0,
{
    let p = v.mul(inv);
    if !v.is_finite() || !p.is_finite() {
        return None;
    }
    let c = p.floor_i64();
    if c >= i32::MIN as i64 && c <= i32::MAX as i64 {
        Some(c as i32)
    } else {
        None
    }
}

pub(crate) fn axis_clamped(v: F64, inv: F64) -> (r: i32)
    ensures
        r == axis_held(v, inv),
{
    let p = v.mul(inv);
    if p.is_nan() {
        0
    } else if !p.is_finite() {
        if p.negative() {
            i32::MIN
        } else {
            i32::MAX
        }
    } else {
        let c = p.floor_i64();
        if c < i32::MIN as i64 {
            i32::MIN
        } else if c > i32::MAX as i64 {
            i32::MAX
        } else {
            c as i32
        }
    }
}

/// Cells keep the order of coordinates.
pub proof fn lemma_axis_order(lo: F64, v: F64, hi: F64, inv: F64)
    requires
        !inv.neg_bit(),
        !inv.nan(),
        lo.finite(),
        hi.finite(),
        axis(v, inv) is Some,
        lo.fle(v),
        v.fle(hi),
    ensures
        axis_held(lo, inv) <= axis(v, inv)->0 <= axis_held(hi, inv),
{
    assert(inv.finite()) by {
        if inv.inf() {
            assert(!v.mul_spec(inv).finite());
        }
    }
    let a = lo.mul_spec(inv);
    let p = v.mul_spec(inv);
    let b = hi.mul_spec(inv);
    crate::float_order::law_scaling_is_monotone(lo, v, inv);
    crate::float_order::law_scaling_is_monotone(v, hi, inv);
    if a.finite() {
        crate::float_order::lemma_floor_monotone(a, p);
    }
    if b.finite() {
        crate::float_order::lemma_floor_monotone(p, b);
    }
}

/// A resident: its cell and its position.
#[derive(Clone, Copy, Debug)]
pub struct Entry {
    pub id: InstanceId,
    pub cx: i32,
    pub cy: i32,
    pub x: F64,
    pub y: F64,
}

pub struct SpatialGrid {
    pub inv_cell: F64,
    pub cell_size: F64,
    pub ids: Vec<InstanceId>,
    pub entries: HashMap<u128, Entry>,
    pub cells: HashMap<u64, Vec<InstanceId>>,
}

/// The residents of a cell.
pub open spec fn members(cells: Map<u64, Vec<InstanceId>>, k: u64) -> Seq<InstanceId> {
    if cells.contains_key(k) {
        cells[k]@
    } else {
        Seq::empty()
    }
}

/// Adds a resident to a cell.
fn attach(cells: &mut HashMap<u64, Vec<InstanceId>>, k: u64, id: InstanceId)
    requires
        !members(old(cells)@, k).contains(id),
        members(old(cells)@, k).no_duplicates(),
    ensures
        forall|j: u64| j != k ==> #[trigger] members(final(cells)@, j) == members(old(cells)@, j),
        members(final(cells)@, k).no_duplicates(),
        forall|i: InstanceId| #[trigger]
            members(final(cells)@, k).contains(i) <==> i == id || members(old(cells)@, k).contains(
                i,
            ),
{
    let ghost before = members(cells@, k);
    let mut v: Vec<InstanceId> = match cells.remove(&k) {
        Some(v) => v,
        None => Vec::new(),
    };
    assert(v@ =~= before);
    v.push(id);
    cells.insert(k, v);
    proof {
        let after = members(cells@, k);
        assert(after == before.push(id));
        assert forall|i: InstanceId| #[trigger] after.contains(i) <==> i == id || before.contains(
            i,
        ) by {
            lemma_push_id(before, id, i);
        }
        assert forall|a: int, b: int|
            0 <= a < after.len() && 0 <= b < after.len() && a != b implies after[a] != after[b] by {
            if a < before.len() {
                assert(before.contains(before[a]));
            }
            if b < before.len() {
                assert(before.contains(before[b]));
            }
        }
    }
}

proof fn lemma_push_id(s: Seq<InstanceId>, a: InstanceId, b: InstanceId)
    ensures
        s.push(a).contains(b) <==> s.contains(b) || b == a,
{
    let p = s.push(a);
    if s.contains(b) {
        let k = choose|k: int| 0 <= k < s.len() && s[k] == b;
        assert(p[k] == b);
    }
    assert(p[s.len() as int] == a);
}

/// Removes an item by moving the last one into its place.
proof fn lemma_swap_removed(s: Seq<InstanceId>, at: int)
    requires
        0 <= at < s.len(),
        s.no_duplicates(),
    ensures
        s.update(at, s.last()).drop_last().no_duplicates(),
        forall|i: InstanceId| #[trigger]
            s.update(at, s.last()).drop_last().contains(i) <==> s.contains(i) && i != s[at],
{
    let t = s.update(at, s.last()).drop_last();
    let n = s.len() - 1;
    assert forall|k: int| 0 <= k < t.len() implies #[trigger] t[k] == (if k == at {
        s[n]
    } else {
        s[k]
    }) by {}
    assert forall|a: int, b: int| 0 <= a < t.len() && 0 <= b < t.len() && a != b implies t[a]
        != t[b] by {
        let x = if a == at {
            n
        } else {
            a
        };
        let y = if b == at {
            n
        } else {
            b
        };
        assert(s[x] != s[y]);
    }
    assert forall|i: InstanceId| #[trigger] t.contains(i) <==> s.contains(i) && i != s[at] by {
        if t.contains(i) {
            let k = choose|k: int| 0 <= k < t.len() && t[k] == i;
            if k == at {
                assert(s[n] == i);
                assert(s[n] != s[at]);
            } else {
                assert(s[k] == i);
                assert(s[k] != s[at]);
            }
        }
        if s.contains(i) && i != s[at] {
            let k = choose|k: int| 0 <= k < s.len() && s[k] == i;
            if k == n {
                assert(t[at] == i);
            } else {
                assert(t[k] == i);
            }
        }
    }
}

/// The place of an item, or the length.
fn find_id(v: &Vec<InstanceId>, id: InstanceId) -> (r: usize)
    ensures
        r <= v@.len(),
        r < v@.len() ==> v@[r as int] == id,
        r == v@.len() ==> !v@.contains(id),
{
    let mut i: usize = 0;
    while i < v.len()
        invariant
            i <= v@.len(),
            forall|j: int| 0 <= j < i ==> v@[j] != id,
        decreases v@.len() - i,
    {
        if v[i] == id {
            return i;
        }
        i = i + 1;
    }
    i
}

/// Takes a resident out of a cell.
fn detach(cells: &mut HashMap<u64, Vec<InstanceId>>, k: u64, id: InstanceId)
    requires
        members(old(cells)@, k).no_duplicates(),
    ensures
        forall|j: u64| j != k ==> #[trigger] members(final(cells)@, j) == members(old(cells)@, j),
        members(final(cells)@, k).no_duplicates(),
        forall|i: InstanceId| #[trigger]
            members(final(cells)@, k).contains(i) <==> i != id && members(old(cells)@, k).contains(
                i,
            ),
{
    let ghost before = members(cells@, k);
    if let Some(v) = cells.remove(&k) {
        let mut v = v;
        let p = find_id(&v, id);
        if p < v.len() {
            proof {
                lemma_swap_removed(v@, p as int);
            }
            v.swap_remove(p);
        }
        if v.len() > 0 {
            cells.insert(k, v);
        }
        proof {
            assert(members(cells@, k) =~= v@);
        }
    }
}

impl SpatialGrid {
    pub open spec fn has(self, id: InstanceId) -> bool {
        self.entries@.contains_key(inst_key(id))
    }

    pub open spec fn entry(self, id: InstanceId) -> Entry {
        self.entries@[inst_key(id)]
    }

    /// The position of a resident.
    pub open spec fn at(self, id: InstanceId) -> Option<(F64, F64)> {
        if self.has(id) {
            Some((self.entry(id).x, self.entry(id).y))
        } else {
            None
        }
    }

    /// The position has a cell.
    pub open spec fn holds(self, x: F64, y: F64) -> bool {
        axis(x, self.inv_cell) is Some && axis(y, self.inv_cell) is Some
    }

    pub open spec fn wf(self) -> bool {
        &&& self.inv_cell == of_int(1).div_spec(self.cell_size)
        &&& !self.inv_cell.neg_bit()
        &&& !self.inv_cell.nan()
        &&& self.ids@.no_duplicates()
        &&& forall|id: InstanceId| #[trigger] self.ids@.contains(id) <==> self.has(id)
        &&& forall|id: InstanceId|
            #![trigger self.entry(id)]
            self.has(id) ==> {
                &&& self.entry(id).id == id
                &&& axis(self.entry(id).x, self.inv_cell) == Some(self.entry(id).cx as int)
                &&& axis(self.entry(id).y, self.inv_cell) == Some(self.entry(id).cy as int)
            }
        &&& forall|k: u64| (#[trigger] members(self.cells@, k)).no_duplicates()
        &&& forall|k: u64, id: InstanceId| #[trigger]
            members(self.cells@, k).contains(id) <==> self.has(id) && grid_key(
                self.entry(id).cx,
                self.entry(id).cy,
            ) == k
    }

    /// A grid with cells of this size.
    pub fn new(cell_size: F64) -> (r: SpatialGrid)
        requires
            cell_size.finite(),
            of_int(0).flt(cell_size),
        ensures
            r.wf(),
            r.cell_size == cell_size,
            r.inv_cell == of_int(1).div_spec(cell_size),
            forall|id: InstanceId| !#[trigger] r.has(id),
            r.ids@.len() == 0,
    {
        let one = F64::from_i64(1);
        let inv_cell = one.div(cell_size);
        proof {
            lemma_inverse(cell_size);
        }
        let r = SpatialGrid {
            inv_cell,
            cell_size,
            ids: Vec::new(),
            entries: HashMap::new(),
            cells: HashMap::new(),
        };
        proof {
            assert forall|k: u64, id: InstanceId| !#[trigger] members(r.cells@, k).contains(id) by {}
        }
        r
    }

    pub fn cell_size(&self) -> (r: F64)
        ensures
            r == self.cell_size,
    {
        self.cell_size
    }

    /// The number of residents.
    pub fn len(&self) -> (r: usize)
        ensures
            r == self.ids@.len(),
    {
        self.ids.len()
    }

    pub fn is_empty(&self) -> (r: bool)
        ensures
            r == (self.ids@.len() == 0),
    {
        self.ids.len() == 0
    }

    /// The position of a resident.
    pub fn position(&self, id: InstanceId) -> (r: Option<(F64, F64)>)
        ensures
            r == self.at(id),
    {
        match self.entries.get(&inst_key_of(id)) {
            Some(e) => Some((e.x, e.y)),
            None => None,
        }
    }

    /// Whether a position has a cell.
    pub fn can_hold(&self, x: F64, y: F64) -> (r: bool)
        ensures
            r == self.holds(x, y),
    {
        axis_of(x, self.inv_cell).is_some() && axis_of(y, self.inv_cell).is_some()
    }

    /// Puts a resident at a position, or moves it there.
    pub fn update(&mut self, id: InstanceId, x: F64, y: F64)
        requires
            old(self).wf(),
            old(self).holds(x, y),
        ensures
            final(self).wf(),
            final(self).inv_cell == old(self).inv_cell,
            final(self).cell_size == old(self).cell_size,
            forall|i: InstanceId| #[trigger]
                final(self).at(i) == (if i == id {
                    Some((x, y))
                } else {
                    old(self).at(i)
                }),
    {
        let ghost before = *self;
        let cx = axis_of(x, self.inv_cell).unwrap();
        let cy = axis_of(y, self.inv_cell).unwrap();
        let key = inst_key_of(id);
        let nk = grid_key_of(cx, cy);
        let prior: Option<Entry> = match self.entries.get(&key) {
            Some(e) => Some(*e),
            None => None,
        };
        proof {
            if before.has(id) {
                assert(before.entry(id).id == id);
            }
        }
        match prior {
            Some(e) => {
                let ok = grid_key_of(e.cx, e.cy);
                if ok != nk {
                    detach(&mut self.cells, ok, id);
                    proof {
                        assert(members(before.cells@, nk) == members(self.cells@, nk));
                        assert(!members(before.cells@, nk).contains(id));
                    }
                    attach(&mut self.cells, nk, id);
                }
            },
            None => {
                proof {
                    assert(!members(before.cells@, nk).contains(id));
                }
                attach(&mut self.cells, nk, id);
                self.ids.push(id);
                proof {
                    assert(!before.ids@.contains(id));
                    assert forall|i: InstanceId| #[trigger]
                        self.ids@.contains(i) <==> before.ids@.contains(i) || i == id by {
                        lemma_push_id(before.ids@, id, i);
                    }
                    assert forall|a: int, b: int|
                        0 <= a < self.ids@.len() && 0 <= b < self.ids@.len() && a
                            != b implies self.ids@[a] != self.ids@[b] by {
                        if a < before.ids@.len() {
                            assert(before.ids@.contains(before.ids@[a]));
                        }
                        if b < before.ids@.len() {
                            assert(before.ids@.contains(before.ids@[b]));
                        }
                    }
                }
            },
        }
        self.entries.insert(key, Entry { id, cx, cy, x, y });
        proof {
            assert forall|i: InstanceId| i != id implies #[trigger] self.entry(i) == before.entry(i)
                && (self.has(i) <==> before.has(i)) by {
                lemma_inst_key(i, id);
            }
            assert forall|i: InstanceId| i != id implies (#[trigger] self.has(i) <==> before.has(
                i,
            )) by {
                lemma_inst_key(i, id);
            }
            assert forall|k: u64, i: InstanceId| #[trigger] members(self.cells@, k).contains(
                i,
            ) <==> self.has(i) && grid_key(self.entry(i).cx, self.entry(i).cy) == k by {
                assert(members(before.cells@, k).contains(i) <==> before.has(i) && grid_key(
                    before.entry(i).cx,
                    before.entry(i).cy,
                ) == k);
                if i != id {
                    assert(self.entry(i) == before.entry(i));
                    assert(self.has(i) <==> before.has(i));
                }
                if prior is Some {
                    let ok = grid_key(prior->0.cx, prior->0.cy);
                    if ok == nk {
                        assert(self.cells@ == before.cells@);
                    }
                }
            }
            assert forall|k: u64| (#[trigger] members(self.cells@, k)).no_duplicates() by {
                assert(members(before.cells@, k).no_duplicates());
            }
            assert forall|i: InstanceId| #[trigger] self.ids@.contains(i) <==> self.has(i) by {
                assert(before.ids@.contains(i) <==> before.has(i));
            }
        }
    }

    /// Removes a resident, if it is one.
    pub fn remove(&mut self, id: InstanceId)
        requires
            old(self).wf(),
        ensures
            final(self).wf(),
            final(self).inv_cell == old(self).inv_cell,
            final(self).cell_size == old(self).cell_size,
            forall|i: InstanceId| #[trigger]
                final(self).at(i) == (if i == id {
                    None
                } else {
                    old(self).at(i)
                }),
            forall|i: InstanceId| #[trigger]
                final(self).ids@.contains(i) <==> i != id && old(self).ids@.contains(i),
            final(self).ids@.len() <= old(self).ids@.len(),
    {
        let ghost before = *self;
        let key = inst_key_of(id);
        if let Some(e) = self.entries.remove(&key) {
            proof {
                assert(before.entry(id).id == id);
            }
            detach(&mut self.cells, grid_key_of(e.cx, e.cy), id);
            let p = find_id(&self.ids, id);
            proof {
                assert(before.ids@.contains(id));
                lemma_swap_removed(self.ids@, p as int);
            }
            self.ids.swap_remove(p);
            proof {
                assert forall|i: InstanceId| i != id implies #[trigger] self.entry(i)
                    == before.entry(i) && (self.has(i) <==> before.has(i)) by {
                    lemma_inst_key(i, id);
                }
                assert forall|i: InstanceId| i != id implies (#[trigger] self.has(i)
                    <==> before.has(i)) by {
                    lemma_inst_key(i, id);
                }
                assert forall|k: u64, i: InstanceId| #[trigger] members(self.cells@, k).contains(
                    i,
                ) <==> self.has(i) && grid_key(self.entry(i).cx, self.entry(i).cy) == k by {
                    assert(members(before.cells@, k).contains(i) <==> before.has(i) && grid_key(
                        before.entry(i).cx,
                        before.entry(i).cy,
                    ) == k);
                    if i != id {
                        assert(self.entry(i) == before.entry(i));
                        assert(self.has(i) <==> before.has(i));
                    }
                }
                assert forall|k: u64| (#[trigger] members(self.cells@, k)).no_duplicates() by {
                    assert(members(before.cells@, k).no_duplicates());
                }
                assert forall|i: InstanceId| #[trigger] self.ids@.contains(i) <==> self.has(i) by {
                    assert(before.ids@.contains(i) <==> before.has(i));
                }
                assert(!self.has(id));
                assert forall|i: InstanceId|
                    #![trigger self.entry(i)]
                    self.has(i) implies {
                    &&& self.entry(i).id == i
                    &&& axis(self.entry(i).x, self.inv_cell) == Some(self.entry(i).cx as int)
                    &&& axis(self.entry(i).y, self.inv_cell) == Some(self.entry(i).cy as int)
                } by {
                    assert(i != id);
                    assert(before.has(i));
                    assert(self.entry(i) == before.entry(i));
                }
            }
        } else {
            proof {
                assert(!before.has(id));
                assert(!before.ids@.contains(id));
                assert(self.entries@ =~= before.entries@);
                assert forall|i: InstanceId| #[trigger] self.entry(i) == before.entry(i)
                    && self.has(i) == before.has(i) by {}
                assert forall|i: InstanceId| #[trigger] self.has(i) == before.has(i) by {}
            }
        }
    }

    /// Removes every resident with the type and id of `id`, whatever its generation: after an
    /// id was reused, no ghost of its earlier holder stays.
    pub fn remove_slot(&mut self, id: InstanceId)
        requires
            old(self).wf(),
        ensures
            final(self).wf(),
            final(self).inv_cell == old(self).inv_cell,
            final(self).cell_size == old(self).cell_size,
            forall|i: InstanceId| #[trigger]
                final(self).at(i) == (if i.ty == id.ty && i.id == id.id {
                    None
                } else {
                    old(self).at(i)
                }),
    {
        let ghost before = *self;
        let all = crate::column::copied(&self.ids);
        let mut k: usize = 0;
        while k < all.len()
            invariant
                all@ == before.ids@,
                before.wf(),
                k <= all@.len(),
                self.wf(),
                self.inv_cell == before.inv_cell,
                self.cell_size == before.cell_size,
                forall|i: InstanceId| #[trigger]
                    self.at(i) == (if i.ty == id.ty && i.id == id.id && all@.take(
                        k as int,
                    ).contains(i) {
                        None
                    } else {
                        before.at(i)
                    }),
            decreases all@.len() - k,
        {
            let x = all[k];
            let ghost part = all@.take(k as int);
            proof {
                assert(all@.take(k + 1) =~= part.push(x));
            }
            let ghost prev = *self;
            if x.ty == id.ty && x.id == id.id {
                self.remove(x);
            }
            proof {
                assert forall|i: InstanceId| #[trigger] self.at(i) == (if i.ty == id.ty && i.id
                    == id.id && all@.take(k + 1).contains(i) {
                    None
                } else {
                    before.at(i)
                }) by {
                    lemma_push_id(part, x, i);
                    assert(prev.at(i) == (if i.ty == id.ty && i.id == id.id && part.contains(i) {
                        None
                    } else {
                        before.at(i)
                    }));
                }
            }
            k = k + 1;
        }
        proof {
            assert(all@.take(k as int) =~= all@);
            assert forall|i: InstanceId| #[trigger] self.at(i) == (if i.ty == id.ty && i.id
                == id.id {
                None
            } else {
                before.at(i)
            }) by {
                assert(before.ids@.contains(i) <==> before.has(i));
            }
        }
    }
}

/// One over a positive number is not negative and is a number.
proof fn lemma_inverse(size: F64)
    requires
        size.finite(),
        of_int(0).flt(size),
    ensures
        !of_int(1).div_spec(size).neg_bit(),
        !of_int(1).div_spec(size).nan(),
{
    lemma_small_ints();
    crate::float_arith::lemma_units_zero(size);
    crate::float_order::lemma_round_exists(
        52,
        crate::float64::INF as int,
        of_int(1).units() * one(),
        size.units(),
    );
}

/// Zero and one are the numbers one expects.
pub proof fn lemma_small_ints()
    ensures
        of_int(0).mag() == 0,
        !of_int(0).neg_bit(),
        of_int(1).finite(),
        of_int(1).mag() > 0,
        !of_int(1).neg_bit(),
        of_int(1).units() == one(),
{
    crate::float_arith::lemma_round_zero(1);
    assert(0 * one() == 0) by (nonlinear_arith);
    let b = 1023 * crate::float64::FRAC;
    vstd::arithmetic::power2::lemma2_to64_rest();
    assert(b == 1022 * vstd::arithmetic::power2::pow2(52) + crate::float64::FRAC);
    crate::float_grid::lemma_grid_at(52, 1022, crate::float64::FRAC as nat);
    vstd::arithmetic::power2::lemma_pow2_adds(52, 1022);
    assert(crate::float_grid::grid(52, b as int) == one());
    crate::float_grid::lemma_round_exact(52, crate::float64::INF as int, 1, b as int);
    assert(1 * one() == one());
    assert(one() * 1 == one());
}

}
