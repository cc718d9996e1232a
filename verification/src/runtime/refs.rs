//! The reverse table of references: who points at an instance.
use crate::column::copied;
use crate::entity::EntityTypeId;
use crate::entity::FieldId;
use crate::entity::InstanceId;
use crate::runtime::store::Store;
use crate::spatial::inst_key;
use crate::spatial::inst_key_of;
use crate::spatial::lemma_inst_key;
use crate::value::Val;
use std::collections::HashMap;
use vstd::prelude::*;

verus! {

broadcast use vstd::std_specs::hash::group_hash_axioms;

/// The field `field` of `holder` refers to `target`.
#[derive(Clone, Copy, Debug, PartialEq, Eq, Structural)]
pub struct Edge {
    pub target: InstanceId,
    pub holder: InstanceId,
    pub field: FieldId,
}

/// The reverse table: for each instance the fields that point at it, by its number.
pub struct RefTable {
    pub by_target: HashMap<u128, Vec<(InstanceId, FieldId)>>,
}

impl RefTable {
    /// No field is listed twice.
    pub open spec fn wf(self) -> bool {
        forall|t: InstanceId| (#[trigger] self.holders_of(t)).no_duplicates()
    }

    pub open spec fn has(self, e: Edge) -> bool {
        self.holders_of(e.target).contains((e.holder, e.field))
    }

    /// The fields that point at `t`.
    pub open spec fn holders_of(self, t: InstanceId) -> Seq<(InstanceId, FieldId)> {
        let k = inst_key(t);
        if self.by_target@.contains_key(k) {
            self.by_target@[k]@
        } else {
            Seq::empty()
        }
    }

    /// Everyone but `t` is pointed at as in `other`.
    pub open spec fn only_target(self, other: RefTable, t: InstanceId) -> bool {
        forall|x: InstanceId| x != t ==> #[trigger] self.holders_of(x) == other.holders_of(x)
    }

    pub fn new() -> (r: RefTable)
        ensures
            r.wf(),
            forall|e: Edge| !#[trigger] r.has(e),
    {
        RefTable { by_target: HashMap::new() }
    }

    /// Takes the list of a target out of the table.
    fn take(&mut self, t: InstanceId) -> (r: Vec<(InstanceId, FieldId)>)
        ensures
            r@ == old(self).holders_of(t),
            final(self).holders_of(t).len() == 0,
            final(self).only_target(*old(self), t),
    {
        let ghost before = *self;
        let r = match self.by_target.remove(&inst_key_of(t)) {
            Some(v) => v,
            None => Vec::new(),
        };
        proof {
            assert(r@ =~= before.holders_of(t));
            assert forall|x: InstanceId| x != t implies #[trigger] self.holders_of(x)
                == before.holders_of(x) by {
                lemma_inst_key(x, t);
            }
        }
        r
    }

    /// Puts a list in the place of that of a target.
    fn put(&mut self, t: InstanceId, v: Vec<(InstanceId, FieldId)>)
        ensures
            final(self).holders_of(t) == v@,
            final(self).only_target(*old(self), t),
    {
        let ghost before = *self;
        if v.len() == 0 {
            self.by_target.remove(&inst_key_of(t));
            assert(self.holders_of(t) =~= v@);
        } else {
            self.by_target.insert(inst_key_of(t), v);
        }
        proof {
            assert forall|x: InstanceId| x != t implies #[trigger] self.holders_of(x)
                == before.holders_of(x) by {
                lemma_inst_key(x, t);
            }
        }
    }

    /// Adds an edge, once.
    pub fn add(&mut self, e: Edge)
        requires
            old(self).wf(),
        ensures
            final(self).wf(),
            final(self).only_target(*old(self), e.target),
            final(self).holders_of(e.target) == (if old(self).has(e) {
                old(self).holders_of(e.target)
            } else {
                old(self).holders_of(e.target).push((e.holder, e.field))
            }),
            forall|x: Edge| #[trigger] final(self).has(x) <==> x == e || old(self).has(x),
    {
        let ghost before = *self;
        let mut v = self.take(e.target);
        let ghost mid = *self;
        let i = find_holder(&v, (e.holder, e.field));
        if i == v.len() {
            v.push((e.holder, e.field));
        }
        self.put(e.target, v);
        proof {
            let h = before.holders_of(e.target);
            let p = (e.holder, e.field);
            assert forall|x: InstanceId| x != e.target implies #[trigger] self.holders_of(x)
                == before.holders_of(x) by {
                assert(mid.holders_of(x) == before.holders_of(x));
            }
            assert forall|x: Edge| #[trigger] self.has(x) <==> x == e || before.has(x) by {
                if x.target == e.target {
                    lemma_push_contains(h, p, (x.holder, x.field));
                } else {
                    assert(self.holders_of(x.target) == before.holders_of(x.target));
                }
            }
            assert forall|t: InstanceId| (#[trigger] self.holders_of(t)).no_duplicates() by {
                assert(before.holders_of(t).no_duplicates());
                if t == e.target && !before.has(e) {
                    let q = self.holders_of(t);
                    assert forall|a: int, b: int|
                        0 <= a < q.len() && 0 <= b < q.len() && a != b implies q[a] != q[b] by {
                        if a < h.len() && b < h.len() {
                            assert(h[a] != h[b]);
                        } else if a < h.len() {
                            assert(h.contains(h[a]));
                        } else {
                            assert(h.contains(h[b]));
                        }
                    }
                }
            }
        }
    }

    /// Removes an edge.
    pub fn remove(&mut self, e: Edge)
        requires
            old(self).wf(),
        ensures
            final(self).wf(),
            final(self).only_target(*old(self), e.target),
            forall|x: Edge| #[trigger] final(self).has(x) <==> x != e && old(self).has(x),
    {
        let ghost before = *self;
        let mut v = self.take(e.target);
        let ghost mid = *self;
        let i = find_holder(&v, (e.holder, e.field));
        if i < v.len() {
            v.remove(i);
        }
        self.put(e.target, v);
        proof {
            let h = before.holders_of(e.target);
            let p = (e.holder, e.field);
            let q = self.holders_of(e.target);
            assert(h.no_duplicates());
            assert forall|x: InstanceId| x != e.target implies #[trigger] self.holders_of(x)
                == before.holders_of(x) by {
                assert(mid.holders_of(x) == before.holders_of(x));
            }
            if i < h.len() {
                assert(q =~= h.remove(i as int));
                lemma_removed(h, i as int);
            }
            assert forall|x: Edge| #[trigger] self.has(x) <==> x != e && before.has(x) by {
                if x.target == e.target {
                    let y = (x.holder, x.field);
                    if i < h.len() {
                        assert(h.remove(i as int).contains(y) <==> h.contains(y) && y != p);
                    }
                } else {
                    assert(self.holders_of(x.target) == before.holders_of(x.target));
                }
            }
            assert forall|t: InstanceId| (#[trigger] self.holders_of(t)).no_duplicates() by {
                assert(before.holders_of(t).no_duplicates());
            }
        }
    }

    /// The fields that point at `t`.
    pub fn holders(&self, t: InstanceId) -> (r: Vec<(InstanceId, FieldId)>)
        ensures
            r@ == self.holders_of(t),
    {
        match self.by_target.get(&inst_key_of(t)) {
            Some(v) => copied(v),
            None => {
                let r: Vec<(InstanceId, FieldId)> = Vec::new();
                assert(r@ =~= self.holders_of(t));
                r
            },
        }
    }

    /// Removes all edges that point at `t`.
    pub fn remove_target(&mut self, t: InstanceId)
        requires
            old(self).wf(),
        ensures
            final(self).wf(),
            final(self).only_target(*old(self), t),
            forall|x: Edge| #[trigger] final(self).has(x) <==> x.target != t && old(self).has(x),
    {
        let ghost before = *self;
        let _ = self.take(t);
        proof {
            assert forall|x: Edge| #[trigger] self.has(x) <==> x.target != t && before.has(x) by {
                if x.target != t {
                    assert(self.holders_of(x.target) == before.holders_of(x.target));
                }
            }
            assert forall|x: InstanceId| (#[trigger] self.holders_of(x)).no_duplicates() by {
                if x != t {
                    assert(self.holders_of(x) == before.holders_of(x));
                    assert(before.holders_of(x).no_duplicates());
                }
            }
        }
    }
}

/// The place of a field in a list, or the length.
fn find_holder(v: &Vec<(InstanceId, FieldId)>, h: (InstanceId, FieldId)) -> (r: usize)
    ensures
        r <= v@.len(),
        r < v@.len() ==> v@[r as int] == h,
        r == v@.len() ==> !v@.contains(h),
{
    let mut i: usize = 0;
    while i < v.len()
        invariant
            i <= v@.len(),
            forall|j: int| 0 <= j < i ==> v@[j] != h,
        decreases v@.len() - i,
    {
        if v[i].0 == h.0 && v[i].1 == h.1 {
            return i;
        }
        i = i + 1;
    }
    i
}

proof fn lemma_push_contains(
    s: Seq<(InstanceId, FieldId)>,
    e: (InstanceId, FieldId),
    x: (InstanceId, FieldId),
)
    ensures
        s.push(e).contains(x) <==> s.contains(x) || x == e,
{
    let p = s.push(e);
    if s.contains(x) {
        let k = choose|k: int| 0 <= k < s.len() && s[k] == x;
        assert(p[k] == x);
    }
    assert(p[s.len() as int] == e);
}

/// A list without one of its places.
proof fn lemma_removed(s: Seq<(InstanceId, FieldId)>, i: int)
    requires
        s.no_duplicates(),
        0 <= i < s.len(),
    ensures
        s.remove(i).no_duplicates(),
        forall|x: (InstanceId, FieldId)| #[trigger]
            s.remove(i).contains(x) <==> s.contains(x) && x != s[i],
{
    let q = s.remove(i);
    assert forall|a: int, b: int|
        0 <= a < q.len() && 0 <= b < q.len() && a != b implies q[a] != q[b] by {
        let x = if a < i {
            a
        } else {
            a + 1
        };
        let y = if b < i {
            b
        } else {
            b + 1
        };
        assert(s[x] == q[a]);
        assert(s[y] == q[b]);
    }
    assert forall|x: (InstanceId, FieldId)| #[trigger]
        q.contains(x) <==> s.contains(x) && x != s[i] by {
        if s.contains(x) && x != s[i] {
            let k = choose|k: int| 0 <= k < s.len() && s[k] == x;
            if k < i {
                assert(q[k] == x);
            } else {
                assert(q[k - 1] == x);
            }
        }
        if q.contains(x) {
            let k = choose|k: int| 0 <= k < q.len() && q[k] == x;
            if k < i {
                assert(s[k] == x);
            } else {
                assert(s[k + 1] == x);
            }
        }
    }
}

impl Clone for RefTable {
    fn clone(&self) -> (r: RefTable)
        ensures
            r.by_target@ == self.by_target@,
    {
        RefTable { by_target: self.by_target.clone() }
    }
}

/// The field is declared as a reference.
pub open spec fn is_ref(store: Store, ty: EntityTypeId, field: FieldId) -> bool {
    store.field_known(ty, field) && store.at(ty).fields@[field.0 as int].is_ref
}

/// Every edge is true: the holder exists and its reference field points at the target.
pub open spec fn refs_sound(store: Store, refs: RefTable) -> bool {
    forall|e: Edge| #[trigger]
        refs.has(e) ==> {
            &&& store.has(e.holder)
            &&& is_ref(store, e.holder.ty, e.field)
            &&& store.value(e.holder, e.field) == Val::Ref(e.target)
        }
}

/// No reference of an alive instance is missing.
pub open spec fn refs_complete(store: Store, refs: RefTable) -> bool {
    forall|h: InstanceId, f: FieldId, t: InstanceId|
        #![trigger refs.has(Edge { target: t, holder: h, field: f })]
        store.is_alive(h) && is_ref(store, h.ty, f) && store.value(h, f) == Val::Ref(t)
            ==> refs.has(Edge { target: t, holder: h, field: f })
}

}
